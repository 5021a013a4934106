//! Handing the raster over: a 16-bit grayscale image of the `image` crate,
//! filled cell by cell.

use image::{ImageBuffer, Luma};
use vstd::prelude::*;
use crate::raster::Raster;

verus! {

/// A 16-bit grayscale image: an `image::ImageBuffer` over `Luma<u16>`.
/// Nothing is known of it here but what `image_cells` names.
#[verifier::external_body]
pub struct GrayImage {
    /// The image itself, for the caller to encode and store.
    pub buffer: ImageBuffer<Luma<u16>, Vec<u16>>,
}

/// The gray values of an image: one for each of its cells and for nothing
/// else, under the cell's column and row.
pub uninterp spec fn image_cells(img: GrayImage) -> Map<(int, int), u16>;

/// The cells of an image of `width` columns and `height` rows, all at
/// `level`.
pub open spec fn filled(width: int, height: int, level: u16) -> Map<(int, int), u16> {
    Map::new(|k: (int, int)| 0 <= k.0 < width && 0 <= k.1 < height, |k: (int, int)| level)
}

/// The cells of the image that shows `raster`.
pub open spec fn cells_of(raster: Raster) -> Map<(int, int), u16> {
    Map::new(
        |k: (int, int)|
            0 <= k.0 < raster.spec_resolution() && 0 <= k.1 < raster.spec_resolution(),
        |k: (int, int)| raster.at(k.0, k.1),
    )
}

/// `ImageBuffer::new`: an image of `width` by `height` cells, every one of
/// them zero. It panics where the cells, of two bytes each, do not fit a
/// vector.
#[verifier::external_body]
fn new_image(width: u32, height: u32) -> (img: GrayImage)
    requires
        2 * (width * height) <= isize::MAX,
    ensures
        image_cells(img) == filled(width as int, height as int, 0),
{
    GrayImage { buffer: ImageBuffer::new(width, height) }
}

/// `ImageBuffer::put_pixel`: sets the cell in column `x` of row `y`, and no
/// other. It panics where the image has no such cell.
#[verifier::external_body]
fn put_level(img: &mut GrayImage, x: u32, y: u32, level: u16)
    requires
        image_cells(*old(img)).contains_key((x as int, y as int)),
    ensures
        image_cells(*final(img)) == image_cells(*old(img)).insert((x as int, y as int), level),
{
    img.buffer.put_pixel(x, y, Luma([level]));
}

/// The image that shows `raster`: as many columns and rows, and in each cell
/// the raster's level.
pub fn render(raster: &Raster) -> (img: GrayImage)
    ensures
        image_cells(img) == cells_of(*raster),
{
    let resolution = raster.resolution();
    let mut img = new_image(resolution, resolution);
    let mut y: u32 = 0;
    while y < resolution
        invariant
            0 <= y <= resolution,
            resolution == raster.spec_resolution(),
            image_cells(img).dom() == filled(resolution as int, resolution as int, 0).dom(),
            forall|xx: int, yy: int|
                0 <= xx < resolution && 0 <= yy < resolution ==> #[trigger] image_cells(img)[(
                    xx,
                    yy,
                )] == (if yy < y {
                    raster.at(xx, yy)
                } else {
                    0
                }),
        decreases resolution - y,
    {
        let mut x: u32 = 0;
        while x < resolution
            invariant
                0 <= x <= resolution,
                0 <= y < resolution,
                resolution == raster.spec_resolution(),
                image_cells(img).dom() == filled(resolution as int, resolution as int, 0).dom(),
                forall|xx: int, yy: int|
                    0 <= xx < resolution && 0 <= yy < resolution ==> #[trigger] image_cells(img)[(
                        xx,
                        yy,
                    )] == (if yy < y || (yy == y && xx < x) {
                        raster.at(xx, yy)
                    } else {
                        0
                    }),
            decreases resolution - x,
        {
            let level: u16 = match raster.get(x, y) {
                Some(l) => l,
                None => 0,
            };
            assert(filled(resolution as int, resolution as int, 0).dom().contains(
                (x as int, y as int),
            ));
            put_level(&mut img, x, y, level);
            x = x + 1;
        }
        y = y + 1;
    }
    assert(image_cells(img) =~= cells_of(*raster));
    img
}

} // verus!
