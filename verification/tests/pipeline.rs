use buddhabrot::histogram::Histogram;
use buddhabrot::orbit::{Observation, Orbit, OrbitStatus, Witness};
use buddhabrot::pixel::PixelCoord;
use buddhabrot::plan::Plan;
use buddhabrot::sampler::Sampler;
use buddhabrot::tone::tone_map;

const MAP_MIN: f64 = -2.0;
const MAP_MAX: f64 = 2.0;
const RESOLUTION: u32 = 10;
const STEP: f64 = 0.5;
const MAX_ITERATIONS: u32 = 50;
const PRECISION: f64 = 4500000000000000000.0;

fn translate_range(input: f64) -> u16 {
    let output = 1.0 + (input - MAP_MIN) * (RESOLUTION as f64 - 1.0) / (MAP_MAX - MAP_MIN);
    output.round() as u16
}

fn observation(re: f64, im: f64) -> Observation {
    Observation {
        pixel: PixelCoord { x: translate_range(re), y: translate_range(im) },
        point: Witness { re: (re * PRECISION).round() as i64, im: (im * PRECISION).round() as i64 },
        outside: re * re + im * im > 4.0,
    }
}

fn run_orbit(c_re: f64, c_im: f64, partition: &mut Histogram) -> OrbitStatus {
    let mut orbit = Orbit::new(MAX_ITERATIONS);
    let (mut re, mut im) = (0.0f64, 0.0f64);
    while orbit.is_running() {
        orbit.observe(observation(re, im));
        let next_re = re * re - im * im + c_re;
        let next_im = 2.0 * re * im + c_im;
        re = next_re;
        im = next_im;
    }
    orbit.deposit(partition);
    orbit.status()
}

fn scan_partition(index: u64, density: u64, adaptive: bool) -> Histogram {
    let mut partition = Histogram::new();
    let real = (index as f64 / density as f64) * (MAP_MAX - MAP_MIN) + MAP_MIN;
    let mut sampler = Sampler::new(adaptive);
    let mut imag = MAP_MIN;
    while imag <= MAP_MAX {
        let status = run_orbit(real, imag, &mut partition);
        let advance = sampler.observe(status == OrbitStatus::Escaped);
        imag -= advance.back as f64 * STEP;
        imag += advance.forward as f64 * STEP;
    }
    partition
}

fn run(segments: u64, adaptive: bool) -> Histogram {
    let density = ((MAP_MAX - MAP_MIN) / STEP) as u64;
    let plan = Plan::new(density, segments).unwrap();
    let mut global = Histogram::new();
    for s in 0..plan.segments() {
        let range = plan.segment(s);
        let partials: Vec<Histogram> =
            (range.start..range.end).map(|i| scan_partition(i, density, adaptive)).collect();
        global.merge_all(&partials);
    }
    global
}

fn sorted_entries(h: &Histogram) -> Vec<(u16, u16, u64)> {
    let mut v: Vec<(u16, u16, u64)> = h.entries().iter().map(|(p, c)| (p.x, p.y, *c)).collect();
    v.sort();
    v
}

#[test]
fn translate_range_maps_the_bounds() {
    assert_eq!(translate_range(MAP_MIN), 1);
    assert_eq!(translate_range(MAP_MAX), RESOLUTION as u16);
}

#[test]
fn sample_outside_the_disk_escapes_after_one_iteration() {
    let mut h = Histogram::new();
    assert_eq!(run_orbit(1.5, 1.5, &mut h), OrbitStatus::Escaped);
    let zero = translate_range(0.0);
    let c = translate_range(1.5);
    assert_eq!(sorted_entries(&h), vec![(zero, zero, 1), (c, c, 1)]);
}

#[test]
fn sample_at_the_origin_adds_nothing() {
    let mut h = Histogram::new();
    assert_eq!(run_orbit(0.0, 0.0, &mut h), OrbitStatus::CycleDetected);
    assert!(h.is_empty());
    assert_eq!(run_orbit(-1.0, 0.0, &mut h), OrbitStatus::CycleDetected);
    assert!(h.is_empty());
}

#[test]
fn end_to_end_small_image() {
    let global = run(1, false);
    assert!(!global.is_empty());
    let raster = tone_map(&global, RESOLUTION, 65535);
    assert_eq!(raster.resolution(), 10);
    assert_eq!(raster.levels().len(), 100);
    let mut bright = 0;
    for y in 0..RESOLUTION {
        for x in 0..RESOLUTION {
            let level = raster.get(x, y).unwrap();
            let count = global.get(PixelCoord { x: x as u16, y: y as u16 });
            if count.is_none() {
                assert_eq!(level, 0);
            }
            if level != 0 {
                bright += 1;
                assert!(count.unwrap() > 0);
            }
        }
    }
    assert!(bright >= 1);
    // the start of every orbit is the brightest cell
    let zero = translate_range(0.0) as u32;
    assert_eq!(raster.get(zero, zero), Some(65535));
}

#[test]
fn end_to_end_eight_bits() {
    let global = run(1, false);
    let raster = tone_map(&global, RESOLUTION, 255);
    assert_eq!(raster.levels().len(), 100);
    assert!(raster.levels().iter().all(|l| *l <= 255));
    assert!(raster.levels().iter().any(|l| *l != 0));
}

#[test]
fn segments_do_not_change_the_image() {
    let whole = run(1, false);
    for segments in [2, 3, 8, 20] {
        let cut = run(segments, false);
        assert_eq!(sorted_entries(&cut), sorted_entries(&whole));
    }
}

#[test]
fn adaptive_scan_gives_an_image_too() {
    let global = run(2, true);
    assert!(!global.is_empty());
    let raster = tone_map(&global, RESOLUTION, 65535);
    assert_eq!(raster.levels().len(), 100);
    assert!(raster.levels().iter().any(|l| *l != 0));
}
