//! Density images of escaping Mandelbrot orbits: the integer core.

pub mod histogram;
pub mod level;
pub mod orbit;
pub mod pixel;
pub mod plan;
pub mod raster;
pub mod render;
pub mod sampler;
pub mod tone;
