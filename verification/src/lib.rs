//! Verified K-Means clustering and K-Nearest-Neighbors classification over
//! fixed-point integer coordinates.
//!
//! Points are rows of `i64` coordinates, each bounded by [`data::COORD_LIMIT`];
//! callers pick a fixed-point scale when they convert their measurements.
//! Under that bound every squared Euclidean distance fits in a `u128` and every
//! coordinate sum fits in an `i128`, so all arithmetic here is exact.
#![verifier::loop_isolation(false)]

pub mod data;
pub mod kmeans;
pub mod knearest;
pub mod rng;
pub mod utils;

pub use data::{Dataset, Error, LabeledDataset};
pub use kmeans::{KMeans, Model};
pub use knearest::KNearest;
pub use utils::euclidean_distance;
