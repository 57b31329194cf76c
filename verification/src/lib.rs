//! The core of a parallel path tracer, without its floating-point geometry.
//!
//! * [`compute`] is the ledger of a pool of workers: what has been sent to
//!   each worker, and what a worker does with one message.
//! * [`drain`] hands a list of jobs to the pool, at most one job at a time to
//!   each worker, until every job has been reported exactly once.
//! * [`hittable_list`] finds the nearest hit of a ray in a list of objects.
//! * [`trace`] follows a ray from bounce to bounce, down to a bounded depth,
//!   and sums the samples of a pixel.
//! * [`pixel`] and [`buffer`] are the raster that the results go into.
//! * [`ppm`] writes a raster of displayable colours as a plain-text image.
//!
//! Rays, colours and surfaces are type parameters here, and what is done to
//! them comes in as functions: the program that renders brings its own
//! arithmetic, and its own threads and channels.

pub mod buffer;
pub mod compute;
pub mod drain;
pub mod hittable_list;
pub mod pixel;
pub mod ppm;
pub mod trace;
