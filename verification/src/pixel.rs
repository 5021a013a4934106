//! Pixel coordinates and the integer keys under which they are stored.

use vstd::prelude::*;

verus! {

/// A pixel coordinate: column `x` and row `y`.
#[derive(Clone, Copy, Debug, PartialEq, Eq, Structural)]
pub struct PixelCoord {
    pub x: u16,
    pub y: u16,
}

/// The key of the pixel `(x, y)`: `x * 65536 + y`.
pub open spec fn key_of(x: int, y: int) -> int {
    x * 65536 + y
}

impl PixelCoord {
    /// The key under which this pixel is stored.
    pub open spec fn spec_key(self) -> int {
        key_of(self.x as int, self.y as int)
    }

    /// Packs both coordinates into one integer, `x` in the high half.
    pub fn key(self) -> (k: u32)
        ensures
            k as int == self.spec_key(),
    {
        let x: u32 = self.x as u32;
        let y: u32 = self.y as u32;
        x * 65536 + y
    }

    /// The key is one-to-one over all pixels, and every key fits 32 bits.
    pub proof fn lemma_key_injective_all()
        ensures
            forall|a: PixelCoord, b: PixelCoord| #[trigger] a.spec_key() == #[trigger] b.spec_key() ==> a == b,
            forall|a: PixelCoord| 0 <= #[trigger] a.spec_key() <= u32::MAX,
    {
    }

    /// The pixel whose key is `k`.
    pub open spec fn spec_from_key(k: u32) -> PixelCoord {
        PixelCoord { x: (k / 65536) as u16, y: (k % 65536) as u16 }
    }

    /// The pixel stored under `k`.
    pub fn from_key(k: u32) -> (p: PixelCoord)
        ensures
            p == PixelCoord::spec_from_key(k),
            p.spec_key() == k as int,
    {
        PixelCoord { x: (k / 65536) as u16, y: (k % 65536) as u16 }
    }
}

} // verus!
