//! A Mandelbrot escape-time renderer whose every pixel is computed in
//! software binary32 arithmetic, so that each evaluator produces the same
//! bytes on every machine.
//!
//! - [`number`] is the mathematical model of binary32 arithmetic, and
//!   [`rounding`] holds what is proved about its rounding.
//! - [`binary32`] is that arithmetic on bit patterns, in integer operations.
//! - [`kernel`] computes the shade of one pixel, and [`grid`] maps flat
//!   indices to rows and columns.
//! - [`raster`] holds the evaluators that run on the host.
//! - [`dispatch`] splits the work into launches for a device, and
//!   [`params`] holds the parameters of a run.

pub mod binary32;
pub mod dispatch;
pub mod grid;
pub mod kernel;
pub mod number;
pub mod params;
pub mod raster;
pub mod rounding;
