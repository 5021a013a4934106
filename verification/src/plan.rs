//! The work of a run: the indices of the real axis, cut into segments that
//! are processed one after the other.

use vstd::prelude::*;

verus! {

/// A range of indices: from `start` up to, and without, `end`.
#[derive(Clone, Copy, Debug, PartialEq, Eq, Structural)]
pub struct IndexRange {
    pub start: u64,
    pub end: u64,
}

impl IndexRange {
    /// Whether the range holds `index`.
    pub open spec fn contains(self, index: int) -> bool {
        self.start <= index < self.end
    }
}

/// The number of indices in each segment but the last.
pub open spec fn segment_length(density: int, segments: int) -> int {
    density / segments
}

/// The first index of segment `i`. Past the last segment nothing is left.
pub open spec fn segment_start(density: int, segments: int, i: int) -> int {
    if i >= segments {
        density + 1
    } else {
        i * segment_length(density, segments)
    }
}

/// Segment `i` of the indices `0 ..= density` cut into `segments` parts: each
/// starts where the one before it ends, and the last takes what is left.
pub open spec fn segment_of(density: int, segments: int, i: int) -> IndexRange {
    IndexRange {
        start: segment_start(density, segments, i) as u64,
        end: segment_start(density, segments, i + 1) as u64,
    }
}

/// The segment that holds `index`.
pub open spec fn segment_index(density: int, segments: int, index: int) -> int {
    let length = segment_length(density, segments);
    if length == 0 || index / length >= segments {
        segments - 1
    } else {
        index / length
    }
}

/// Segments start in order, inside the indices.
pub proof fn lemma_segment_start_ordered(density: int, segments: int, i: int, j: int)
    requires
        0 <= density,
        1 <= segments,
        0 <= i <= j,
    ensures
        0 <= segment_start(density, segments, i) <= segment_start(density, segments, j) <= density
            + 1,
{
    let length = density / segments;
    assert(0 <= length && segments * length <= density) by (nonlinear_arith)
        requires
            0 <= density,
            1 <= segments,
            length == density / segments,
    ;
    if j < segments {
        assert(i * length <= j * length && j * length <= segments * length && 0 <= i * length)
            by (nonlinear_arith)
            requires
                0 <= i <= j < segments,
                0 <= length,
        ;
    } else if i < segments {
        assert(i * length <= segments * length && 0 <= i * length) by (nonlinear_arith)
            requires
                0 <= i < segments,
                0 <= length,
        ;
    }
}

/// Every index lies in the segment that `segment_index` names, and in no
/// other: the segments split the indices.
pub proof fn lemma_segments_split(density: int, segments: int, index: int, i: int)
    requires
        0 <= density < u64::MAX,
        1 <= segments,
        0 <= index <= density,
        0 <= i < segments,
    ensures
        0 <= segment_index(density, segments, index) < segments,
        segment_of(density, segments, i).contains(index) <==> i == segment_index(
            density,
            segments,
            index,
        ),
{
    let length = density / segments;
    let home = segment_index(density, segments, index);
    assert(0 <= length && length * segments <= density) by (nonlinear_arith)
        requires
            0 <= density,
            1 <= segments,
            length == density / segments,
    ;
    if length > 0 {
        let q = index / length;
        assert(0 <= q && q * length <= index < (q + 1) * length) by (nonlinear_arith)
            requires
                0 <= index,
                0 < length,
                q == index / length,
        ;
        assert(0 <= home < segments);
        assert(home * length <= index) by (nonlinear_arith)
            requires
                0 <= home <= q,
                q * length <= index,
                0 < length,
        ;
        if home + 1 < segments {
            assert(home == q);
        }
    } else {
        assert(i * length == 0 && (i + 1) * length == 0 && home * length == 0 && (home + 1)
            * length == 0) by (nonlinear_arith)
            requires
                length == 0,
        ;
    }
    lemma_segment_start_ordered(density, segments, i, i + 1);
    lemma_segment_start_ordered(density, segments, home, home + 1);
    assert(segment_of(density, segments, home).contains(index));
    if i < home {
        lemma_segment_start_ordered(density, segments, i + 1, home);
    } else if i > home {
        lemma_segment_start_ordered(density, segments, home + 1, i);
    }
}

/// How a run is cut up.
#[derive(Clone, Copy, Debug, PartialEq, Eq, Structural)]
pub struct Plan {
    density: u64,
    segments: u64,
}

impl Plan {
    #[verifier::type_invariant]
    closed spec fn inv(self) -> bool {
        1 <= self.segments && self.density < u64::MAX
    }

    /// The last index of the real axis.
    pub closed spec fn spec_density(self) -> int {
        self.density as int
    }

    /// The number of segments.
    pub closed spec fn spec_segments(self) -> int {
        self.segments as int
    }

    /// A plan for the indices `0 ..= density` in `segments` segments. There
    /// is none without a segment, nor where the indices cannot be counted.
    pub fn new(density: u64, segments: u64) -> (plan: Option<Plan>)
        ensures
            plan is Some <==> segments >= 1 && density < u64::MAX,
            plan matches Some(p) ==> p.spec_density() == density && p.spec_segments() == segments,
    {
        if segments >= 1 && density < u64::MAX {
            Some(Plan { density, segments })
        } else {
            None
        }
    }

    /// The last index of the real axis.
    pub fn density(&self) -> (d: u64)
        ensures
            d == self.spec_density(),
            d < u64::MAX,
    {
        proof {
            use_type_invariant(self);
        }
        self.density
    }

    /// The number of segments.
    pub fn segments(&self) -> (n: u64)
        ensures
            n == self.spec_segments(),
            n >= 1,
    {
        proof {
            use_type_invariant(self);
        }
        self.segments
    }

    /// The indices of segment `i`; none where `i` is past the last segment.
    pub fn segment(&self, i: u64) -> (r: IndexRange)
        ensures
            r == segment_of(self.spec_density(), self.spec_segments(), i as int),
            r.start <= r.end <= self.spec_density() + 1,
    {
        proof {
            use_type_invariant(self);
            lemma_segment_start_ordered(self.density as int, self.segments as int, i as int, i + 1);
        }
        let length: u64 = self.density / self.segments;
        let start: u64 = if i >= self.segments {
            self.density + 1
        } else {
            i * length
        };
        let end: u64 = if i >= self.segments - 1 {
            self.density + 1
        } else {
            (i + 1) * length
        };
        IndexRange { start, end }
    }
}

} // verus!
