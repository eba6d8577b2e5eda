//! Buddhabrot rendering: random points of the complex plane that escape the
//! Mandelbrot iteration leave their whole trajectory in a histogram, which is
//! then tone-mapped to an image.
//!
//! Coordinates are binary fixed-point numbers (see [`fixed`]), so that every
//! step of the pipeline is exact integer arithmetic and can be reasoned about.
//!
//! The pipeline, in the order of the data:
//!
//! - [`config`] checks the parameters of a run and splits its candidates
//!   between the workers;
//! - [`oracle`] decides whether a candidate is taken to be in the set;
//! - [`sampler`] draws the candidates of a worker and walks the trajectory of
//!   each one that escapes ([`point`] has the quadratic map);
//! - [`histogram`] counts the visited points cell by cell ([`grid`] has the
//!   binning, [`palette`] the colour channels);
//! - [`reduction`] adds up the histograms of the workers;
//! - [`tone`] turns the counters into the intensities of an image
//!   ([`raster`]).
//!
//! [`symmetry`] holds the facts that justify mirroring the image about the
//! real axis.

pub mod config;
pub mod error;
pub mod fixed;
pub mod grid;
pub mod histogram;
pub mod oracle;
pub mod palette;
pub mod point;
pub mod raster;
pub mod reduction;
pub mod sampler;
pub mod symmetry;
pub mod tone;
