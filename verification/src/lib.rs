//! A verified k-means clustering engine over integer coordinates.
//!
//! The engine implements Lloyd's algorithm: given a fixed set of
//! D-dimensional points and a target cluster count `k`, it repeatedly
//! assigns each point to its nearest centroid and recomputes each centroid
//! as the mean of its assigned points, until an assignment pass changes
//! nothing or an iteration budget runs out. Distances are compared as
//! exact squared Euclidean distances; centroid means round toward negative
//! infinity; a centroid whose group empties keeps its position for the
//! pass.
//!
//! Every step is pinned by its contract to the mathematical model in
//! [`model`], and the sequential and data-parallel runners promise the
//! same `run_model` outcome, so execution mode is a performance choice and
//! never a behavioral one.

pub mod config;
pub mod convergence;
pub mod groups;
pub mod model;
pub mod point;
pub mod runner;
pub mod sorting;
pub mod timing;
pub mod tokens;

pub use config::KmeansConfig;
pub use config::KmeansError;
pub use groups::SortedSliceIter;
pub use point::Cluster;
pub use point::Point;
pub use point::points_from_vec;
pub use runner::KMeansRunner;
pub use runner::check_points;
pub use timing::benchmark;
pub use tokens::split_tokens;
pub use tokens::string_to_parsed_tokens;
