//! Verified kernels for a handful of small puzzle solvers.
//!
//! The centrepiece is the scanner-report fusion pipeline: a set of partial 3D
//! scans, each in an unknown orientation (one of the 24 axis-aligned cube
//! rotations) and at an unknown offset, is stitched into a single global point
//! map.  The supporting modules hold smaller verified kernels: range-mapping
//! of seed intervals, gcd/lcm folds, the burrow board geometry, and a
//! spring-record feasibility test.

pub mod geometry;
pub mod index;
pub mod matching;
pub mod align;
pub mod fuse;
pub mod report;
pub mod numbers;
pub mod burrow;
pub mod almanac;
pub mod springs;
pub mod lagoon;
