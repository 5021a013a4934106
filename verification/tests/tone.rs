use buddhabrot::histogram::Histogram;
use buddhabrot::level::tone_level;
use buddhabrot::pixel::PixelCoord;
use buddhabrot::raster::Raster;
use buddhabrot::tone::{clip_value, distinct_counts, tone_map};

fn px(x: u16, y: u16) -> PixelCoord {
    PixelCoord { x, y }
}

fn from_entries(entries: &[(u16, u16, u64)]) -> Histogram {
    let mut h = Histogram::new();
    for (x, y, c) in entries {
        h.add(px(*x, *y), *c);
    }
    h
}

fn curve(count: u64, clip: u64, max: f64) -> u16 {
    let v = if count >= clip { clip } else { count };
    ((v as f64 / clip as f64).sqrt().sqrt() * max).round() as u16
}

#[test]
fn level_at_the_ends_of_the_scale() {
    assert_eq!(tone_level(0, 5, 65535), 0);
    assert_eq!(tone_level(5, 5, 65535), 65535);
    assert_eq!(tone_level(1, 1, 65535), 65535);
    assert_eq!(tone_level(0, 1, 65535), 0);
    assert_eq!(tone_level(5, 5, 255), 255);
    assert_eq!(tone_level(0, 5, 255), 0);
}

#[test]
fn level_is_clamped_at_the_clip() {
    assert_eq!(tone_level(6, 5, 65535), 65535);
    assert_eq!(tone_level(u64::MAX, 5, 65535), 65535);
    assert_eq!(tone_level(1000, 3, 255), 255);
}

#[test]
fn level_is_dark_without_a_clip_or_a_scale() {
    assert_eq!(tone_level(0, 0, 65535), 0);
    assert_eq!(tone_level(7, 0, 65535), 0);
    assert_eq!(tone_level(7, 7, 0), 0);
    assert_eq!(tone_level(3, 7, 0), 0);
}

#[test]
fn level_is_the_rounded_fourth_root() {
    assert_eq!(tone_level(1, 3, 65535), 49796);
    assert_eq!(tone_level(2, 3, 65535), 59218);
    assert_eq!(tone_level(1, 2, 65535), 55108);
    assert_eq!(tone_level(500, 1000, 65535), 55108);
    assert_eq!(tone_level(1, 1000, 65535), 11654);
    assert_eq!(tone_level(3, 1000, 65535), 15337);
    assert_eq!(tone_level(999, 1000, 65535), 65519);
    assert_eq!(tone_level(1, 1_000_000, 65535), 2072);
    assert_eq!(tone_level(1, 1_000_000_000_000_000_000, 65535), 2);
    assert_eq!(tone_level(1, 81, 255), 85);
    assert_eq!(tone_level(1, 3, 255), 194);
    assert_eq!(tone_level(2, 3, 255), 230);
    assert_eq!(tone_level(7, 10, 255), 233);
}

#[test]
fn level_rounds_a_half_up() {
    // (1/16)^(1/4) = 1/2, and 65535 / 2 = 32767.5
    assert_eq!(tone_level(1, 16, 65535), 32768);
    assert_eq!(tone_level(3, 48, 65535), 32768);
    assert_eq!(tone_level(1, 16, 255), 128);
}

#[test]
fn level_of_the_largest_counts() {
    assert_eq!(tone_level(u64::MAX, u64::MAX, 65535), 65535);
    assert_eq!(tone_level(u64::MAX - 1, u64::MAX, 65535), 65535);
    assert_eq!(tone_level(1, u64::MAX, 65535), 1);
    assert_eq!(tone_level(1 << 63, u64::MAX, 65535), 55108);
    // just under one sixteenth: below the half, where rounding to 53 bits
    // would see the sixteenth itself
    assert_eq!(tone_level((1 << 60) - 1, u64::MAX, 65535), 32767);
}

#[test]
fn level_agrees_with_the_double_square_root() {
    let clips: [u64; 12] = [1, 2, 3, 5, 7, 16, 100, 257, 1000, 12345, 1_000_000, 1 << 40];
    for clip in clips {
        let step = if clip > 2000 { clip / 997 } else { 1 };
        let mut v: u64 = 0;
        while v <= clip {
            assert_eq!(tone_level(v, clip, 65535), curve(v, clip, 65535.0), "{} of {}", v, clip);
            assert_eq!(tone_level(v, clip, 255), curve(v, clip, 255.0), "{} of {}", v, clip);
            v += step;
        }
        assert_eq!(tone_level(clip + 1, clip, 65535), 65535);
    }
}

#[test]
fn level_grows_with_the_count() {
    for (clip, max) in [(1000u64, 65535u16), (1000, 255), (37, 65535), (3, 7)] {
        let mut last = 0;
        for v in 0..=clip + 5 {
            let l = tone_level(v, clip, max);
            assert!(l >= last);
            assert!(l <= max);
            last = l;
        }
        assert_eq!(last, max);
    }
}

#[test]
fn distinct_counts_are_sorted_and_unique() {
    let h = from_entries(&[
        (0, 0, 7),
        (0, 1, 3),
        (0, 2, 7),
        (1, 0, 1000),
        (1, 1, 3),
        (1, 2, 1),
        (2, 2, 7),
    ]);
    assert_eq!(distinct_counts(&h), vec![1, 3, 7, 1000]);
    assert_eq!(distinct_counts(&Histogram::new()), Vec::<u64>::new());
    assert_eq!(distinct_counts(&from_entries(&[(4, 4, 9), (5, 5, 9)])), vec![9]);
    assert_eq!(distinct_counts(&from_entries(&[(4, 4, 0), (5, 5, u64::MAX)])), vec![0, u64::MAX]);
}

#[test]
fn distinct_counts_of_many_entries() {
    let mut h = Histogram::new();
    for x in 0..60u16 {
        for y in 0..60u16 {
            h.add(px(x, y), ((x as u64 * 7919 + y as u64 * 104729) % 500) * 3);
        }
    }
    let d = distinct_counts(&h);
    let mut expected: Vec<u64> = h.entries().iter().map(|(_, c)| *c).collect();
    expected.sort_unstable();
    expected.dedup();
    assert_eq!(d, expected);
}

#[test]
fn clip_is_the_third_highest_count() {
    assert_eq!(clip_value(&vec![1, 3, 7, 1000]), 3);
    assert_eq!(clip_value(&vec![1, 3, 7]), 1);
    assert_eq!(clip_value(&vec![2, 4, 6, 8, 10, 12]), 8);
}

#[test]
fn clip_falls_back_to_the_only_count() {
    assert_eq!(clip_value(&vec![9]), 9);
    assert_eq!(clip_value(&vec![0]), 0);
}

#[test]
fn clip_of_two_counts_is_the_higher() {
    assert_eq!(clip_value(&vec![3, 7]), 7);
    assert_eq!(clip_value(&vec![0, u64::MAX]), u64::MAX);
    assert_eq!(clip_value(&vec![1, 2]), 2);
}

#[test]
fn clip_of_nothing_is_one() {
    assert_eq!(clip_value(&Vec::new()), 1);
}

#[test]
fn raster_of_an_empty_histogram_is_dark() {
    let r = tone_map(&Histogram::new(), 4, 65535);
    assert_eq!(r.resolution(), 4);
    assert_eq!(r.levels(), &vec![0u16; 16]);
    assert_eq!(r.get(3, 3), Some(0));
    assert_eq!(r.get(4, 0), None);
    assert_eq!(r.get(0, 4), None);
}

#[test]
fn raster_without_cells() {
    let r = tone_map(&from_entries(&[(0, 0, 5)]), 0, 65535);
    assert_eq!(r.resolution(), 0);
    assert_eq!(r.levels().len(), 0);
    assert_eq!(r.get(0, 0), None);
}

#[test]
fn raster_clips_and_maps_every_entry() {
    // distinct counts 1, 2, 3, 10, 1000: the clip is 3
    let h = from_entries(&[
        (0, 0, 1),
        (1, 0, 2),
        (2, 0, 3),
        (0, 1, 10),
        (1, 1, 1000),
        (2, 2, 1),
    ]);
    let r = tone_map(&h, 3, 65535);
    assert_eq!(r.resolution(), 3);
    assert_eq!(r.levels(), &vec![49796, 59218, 65535, 65535, 65535, 0, 0, 0, 49796]);
    assert_eq!(r.get(0, 0), Some(49796));
    assert_eq!(r.get(1, 0), Some(59218));
    assert_eq!(r.get(2, 0), Some(65535));
    assert_eq!(r.get(0, 1), Some(65535));
    assert_eq!(r.get(1, 1), Some(65535));
    assert_eq!(r.get(2, 1), Some(0));
    assert_eq!(r.get(2, 2), Some(49796));
    let r8 = tone_map(&h, 3, 255);
    assert_eq!(r8.levels(), &vec![194, 230, 255, 255, 255, 0, 0, 0, 194]);
}

#[test]
fn raster_rows_are_lines_of_equal_y() {
    let h = from_entries(&[(3, 1, 5)]);
    let r = tone_map(&h, 4, 65535);
    assert_eq!(r.get(3, 1), Some(65535));
    assert_eq!(r.get(1, 3), Some(0));
    assert_eq!(r.levels()[1 * 4 + 3], 65535);
    assert_eq!(r.levels().iter().filter(|l| **l != 0).count(), 1);
}

#[test]
fn raster_skips_entries_outside() {
    let h = from_entries(&[(0, 0, 4), (3, 0, 4), (0, 3, 4), (500, 2, 4), (65535, 65535, 4)]);
    let r = tone_map(&h, 3, 65535);
    assert_eq!(r.levels(), &vec![65535, 0, 0, 0, 0, 0, 0, 0, 0]);
}

#[test]
fn raster_with_one_distinct_count_is_all_bright() {
    let h = from_entries(&[(0, 0, 4), (1, 1, 4)]);
    let r = tone_map(&h, 2, 65535);
    assert_eq!(r.levels(), &vec![65535, 0, 0, 65535]);
}

#[test]
fn raster_with_two_distinct_counts() {
    let h = from_entries(&[(0, 0, 1), (1, 0, 2)]);
    let r = tone_map(&h, 500, 65535);
    assert_eq!(r.resolution(), 500);
    assert_eq!(r.levels().len(), 250000);
    assert_eq!(r.get(1, 0), Some(65535));
    assert_eq!(r.get(0, 0), Some(55108));
    assert_eq!(r.levels().iter().filter(|l| **l != 0).count(), 2);
    let r8 = tone_map(&h, 3, 255);
    assert_eq!(r8.levels(), &vec![214, 255, 0, 0, 0, 0, 0, 0, 0]);
}

#[test]
fn raster_of_zero_counts_is_dark() {
    let h = from_entries(&[(0, 0, 0), (1, 1, 0)]);
    let r = tone_map(&h, 2, 65535);
    assert_eq!(r.levels(), &vec![0, 0, 0, 0]);
}

#[test]
fn raster_from_levels_keeps_them() {
    let r = Raster::from_levels(2, vec![1, 2, 3, 4]);
    assert_eq!(r.resolution(), 2);
    assert_eq!(r.get(0, 0), Some(1));
    assert_eq!(r.get(1, 0), Some(2));
    assert_eq!(r.get(0, 1), Some(3));
    assert_eq!(r.get(1, 1), Some(4));
    assert_eq!(r.get(2, 1), None);
    assert_eq!(r.levels(), &vec![1, 2, 3, 4]);
}

#[test]
fn raster_is_monotonic_in_the_count() {
    let mut h = Histogram::new();
    for x in 0..30u16 {
        h.add(px(x, 0), x as u64);
    }
    // distinct counts 0 ..= 29: the clip is 27
    let r = tone_map(&h, 30, 65535);
    let mut last = 0;
    for x in 0..30u32 {
        let l = r.get(x, 0).unwrap();
        assert!(l >= last);
        last = l;
    }
    assert_eq!(r.get(0, 0), Some(0));
    assert_eq!(r.get(26, 0), Some(curve(26, 27, 65535.0)));
    assert_eq!(r.get(27, 0), Some(65535));
    assert_eq!(r.get(29, 0), Some(65535));
}
