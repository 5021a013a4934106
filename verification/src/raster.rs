//! The finished image: a square of brightness levels.

use vstd::prelude::*;

verus! {

/// The place of column `x` in row `y` of a raster with `resolution` cells
/// per row.
pub open spec fn cell(resolution: int, x: int, y: int) -> int {
    y * resolution + x
}

/// Cells of an earlier row, and earlier cells of one row, come first.
pub proof fn lemma_cell_order(resolution: int, x1: int, y1: int, x2: int, y2: int)
    requires
        0 <= x1 < resolution,
        0 <= x2 <= resolution,
        0 <= y1,
        y1 < y2 || (y1 == y2 && x1 < x2),
    ensures
        0 <= cell(resolution, x1, y1) < cell(resolution, x2, y2),
{
    assert(0 <= y1 * resolution && y1 * resolution + resolution <= y2 * resolution || y1 == y2)
        by (nonlinear_arith)
        requires
            0 <= y1 <= y2,
            0 < resolution,
    ;
    assert(0 <= y1 * resolution) by (nonlinear_arith)
        requires
            0 <= y1,
            0 < resolution,
    ;
}

/// A row ends where the next one starts.
pub proof fn lemma_cell_row_end(resolution: int, y: int)
    ensures
        cell(resolution, resolution, y) == cell(resolution, 0, y + 1),
{
    assert(y * resolution + resolution == (y + 1) * resolution) by (nonlinear_arith);
}

/// Whether a square of `resolution` by `resolution` levels of two bytes each
/// can be held in memory at all.
pub open spec fn fits_memory(resolution: int) -> bool {
    2 * (resolution * resolution) <= isize::MAX
}

/// A square image of brightness levels, stored row by row.
pub struct Raster {
    resolution: u32,
    levels: Vec<u16>,
}

impl Raster {
    #[verifier::type_invariant]
    closed spec fn inv(self) -> bool {
        &&& self.levels@.len() == self.resolution * self.resolution
        &&& fits_memory(self.resolution as int)
    }

    /// The number of cells per row, and of rows.
    pub closed spec fn spec_resolution(&self) -> int {
        self.resolution as int
    }

    /// The level in column `x` of row `y`.
    pub closed spec fn at(&self, x: int, y: int) -> u16 {
        self.levels@[cell(self.resolution as int, x, y)]
    }

    /// The levels row by row.
    pub closed spec fn view(&self) -> Seq<u16> {
        self.levels@
    }

    /// A raster from its levels, row by row.
    pub fn from_levels(resolution: u32, levels: Vec<u16>) -> (r: Raster)
        requires
            levels@.len() == resolution * resolution,
            fits_memory(resolution as int),
        ensures
            r.spec_resolution() == resolution,
            r@ == levels@,
            forall|x: int, y: int| #[trigger] r.at(x, y) == levels@[cell(resolution as int, x, y)],
    {
        Raster { resolution, levels }
    }

    /// The number of cells per row, and of rows.
    pub fn resolution(&self) -> (r: u32)
        ensures
            r == self.spec_resolution(),
            fits_memory(r as int),
    {
        proof {
            use_type_invariant(self);
        }
        self.resolution
    }

    /// The level in column `x` of row `y`, if the raster has that cell.
    pub fn get(&self, x: u32, y: u32) -> (r: Option<u16>)
        ensures
            r == (if x < self.spec_resolution() && y < self.spec_resolution() {
                Some(self.at(x as int, y as int))
            } else {
                None::<u16>
            }),
    {
        proof {
            use_type_invariant(self);
        }
        if x < self.resolution && y < self.resolution {
            proof {
                lemma_cell_order(
                    self.resolution as int,
                    x as int,
                    y as int,
                    0,
                    self.resolution as int,
                );
            }
            assert(y * self.resolution <= 0xFFFF_FFFF * 0xFFFF_FFFF) by (nonlinear_arith)
                requires
                    0 <= y <= 0xFFFF_FFFF,
                    0 <= self.resolution <= 0xFFFF_FFFF,
            ;
            let i: u64 = (y as u64) * (self.resolution as u64) + (x as u64);
            assert(i == cell(self.resolution as int, x as int, y as int));
            assert(i < self.levels.len());
            Some(self.levels[i as usize])
        } else {
            None
        }
    }

    /// The levels row by row: the cell in column `x` of row `y` is at
    /// `y * resolution + x`.
    pub fn levels(&self) -> (l: &Vec<u16>)
        ensures
            l@ == self@,
            l@.len() == self.spec_resolution() * self.spec_resolution(),
            forall|x: int, y: int| #[trigger] self.at(x, y) == l@[cell(self.spec_resolution(), x, y)],
    {
        proof {
            use_type_invariant(self);
        }
        &self.levels
    }
}

} // verus!
