//! Verified integer core of a small Whitted-style raytracer: the xorshift64
//! random generator that drives sampling, the decimal text used on the
//! command line and in the output image, the plain-text PPM (P3) encoder,
//! and the command-line option reader.

pub mod cli;
pub mod decimal;
pub mod ppm;
pub mod rng;
