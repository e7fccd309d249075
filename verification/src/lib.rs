//! A verified centroid-based (k-means style) clustering library for
//! geolocated incident records.
//!
//! A record is a [`point::Point`]: two fixed-point coordinates plus two
//! categorical labels (weapon and race).  The engine in [`engine`] picks k
//! distinct points as initial centroids, repeatedly assigns every point to
//! its nearest centroid and recomputes each centroid as the exact
//! componentwise mean of its cluster, and stops when every recomputed
//! centroid equals the one it replaces.  Centroid coordinates are kept as
//! exact rationals (coordinate sums over a member count), so "equal" means
//! exact equality of the means, not a tolerance.
//!
//! [`model`] holds the mathematical model the contracts are stated over,
//! [`laws`] the proved global properties, [`index`] the optional pairwise
//! distance table, and [`report`] the per-cluster label frequency summary.

pub mod model;
pub mod arith;
pub mod point;
pub mod engine;
pub mod index;
pub mod report;
pub mod laws;
