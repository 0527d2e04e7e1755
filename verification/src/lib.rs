//! The clusterer of an inverted-file vector index.
//!
//! Vectors of an index are grouped into clusters, each around a centroid. The
//! clustering algorithm that trains centroids and finds the nearest one of a
//! vector, its primary, is the caller's. This library decides how many centroids
//! an index gets, checks what goes into the algorithm and what comes out of it,
//! and finds the further clusters that a vector near a boundary is replicated
//! into.
//!
//! Values are single-precision numbers, held by their bit patterns. Orders and
//! comparisons are computed on the patterns; sums, products, differences and
//! square roots are the caller's too.
//!
//! - [`single`]: the patterns, their orders, and the order of candidates.
//! - [`arithmetic`]: squared distances over the caller's arithmetic.
//! - [`heap`]: a max-heap of candidates, and sorting by it.
//! - [`neighbors`]: for each centroid, its nearest other centroids.
//! - [`replicas`]: replicas by scanning all centroids, and by scanning the
//!   neighbors of the primary.
//! - [`exactness`], [`geometry`], [`certificate`]: when both scans agree.
//! - [`selection`]: what replicas and neighbors are, said of themselves.
//! - [`scans`]: how what scans find depends on what they are given.
//! - [`fingerprint`], [`cache`]: which centroids a kept table is of.
//! - [`ratio`]: how many centroids a number of documents gets.
//! - [`types`], [`errors`], [`clusterer`]: the clusterer itself.
//! - [`guarantees`]: what holds of every assignment and every merge.
//! - [`steps`], [`calls`]: what calls give, and how they relate.
pub mod arithmetic;
pub mod cache;
pub mod calls;
pub mod certificate;
pub mod clusterer;
pub mod errors;
pub mod exactness;
pub mod fingerprint;
pub mod geometry;
pub mod guarantees;
pub mod heap;
pub mod neighbors;
pub mod ratio;
pub mod replicas;
pub mod scans;
pub mod selection;
pub mod single;
pub mod steps;
pub mod types;
