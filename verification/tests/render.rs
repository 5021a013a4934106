use buddhabrot::histogram::Histogram;
use buddhabrot::pixel::PixelCoord;
use buddhabrot::raster::Raster;
use buddhabrot::render::render;
use buddhabrot::tone::tone_map;

#[test]
fn image_has_the_levels_of_the_raster() {
    let raster = Raster::from_levels(3, vec![1, 2, 3, 40, 50, 60, 700, 800, 65535]);
    let img = render(&raster);
    assert_eq!(img.buffer.dimensions(), (3, 3));
    for y in 0..3u32 {
        for x in 0..3u32 {
            assert_eq!(img.buffer.get_pixel(x, y).0[0], raster.get(x, y).unwrap());
        }
    }
    assert_eq!(img.buffer.get_pixel(1, 0).0[0], 2);
    assert_eq!(img.buffer.get_pixel(0, 1).0[0], 40);
    assert_eq!(img.buffer.get_pixel(2, 2).0[0], 65535);
    assert_eq!(img.buffer.as_raw(), raster.levels());
}

#[test]
fn image_of_a_dark_raster_is_dark() {
    let img = render(&Raster::from_levels(2, vec![0, 0, 0, 0]));
    assert_eq!(img.buffer.dimensions(), (2, 2));
    assert!(img.buffer.as_raw().iter().all(|l| *l == 0));
}

#[test]
fn image_without_cells() {
    let img = render(&Raster::from_levels(0, Vec::new()));
    assert_eq!(img.buffer.dimensions(), (0, 0));
    assert_eq!(img.buffer.as_raw().len(), 0);
}

#[test]
fn image_of_a_histogram() {
    let mut h = Histogram::new();
    h.add(PixelCoord { x: 0, y: 0 }, 1);
    h.add(PixelCoord { x: 1, y: 0 }, 2);
    h.add(PixelCoord { x: 3, y: 2 }, 3);
    h.add(PixelCoord { x: 2, y: 3 }, 10);
    h.add(PixelCoord { x: 9, y: 9 }, 1000);
    let img = render(&tone_map(&h, 4, 65535));
    assert_eq!(img.buffer.dimensions(), (4, 4));
    assert_eq!(img.buffer.get_pixel(0, 0).0[0], 49796);
    assert_eq!(img.buffer.get_pixel(1, 0).0[0], 59218);
    assert_eq!(img.buffer.get_pixel(3, 2).0[0], 65535);
    assert_eq!(img.buffer.get_pixel(2, 3).0[0], 65535);
    assert_eq!(img.buffer.get_pixel(2, 2).0[0], 0);
    assert_eq!(img.buffer.as_raw().iter().filter(|l| **l != 0).count(), 4);
}
