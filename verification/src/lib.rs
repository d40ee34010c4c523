//! Colour clustering by k-means over fixed-point colours, with k-means++
//! seeding, and the integer core of the edge filters.
//!
//! Every channel of a colour is a 16-bit fixed-point number, so all
//! arithmetic is exact: squared distances fit in `i64`, channel sums and
//! inertia in `i128`, and a centroid is the whole colour nearest to the mean
//! of its points. With exact arithmetic the inertia of successive iterations
//! never rises, which is what makes the iterations come to rest.

pub mod error;
pub mod rgb;
pub mod assignment;
pub mod update;
pub mod inertia;
pub mod descent;
pub mod seeding;
pub mod kmeans;
pub mod convergence;
pub mod bounded;
pub mod edges;
