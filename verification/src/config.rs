//! Run configuration and the error taxonomy of the clustering engine.

use vstd::prelude::*;

verus! {

/// Errors surfaced before any iteration begins. Configuration problems are
/// fatal to the run: no partial result is produced.
#[derive(Debug, PartialEq, Eq, Structural, Clone, Copy)]
pub enum KmeansError {
    /// Dimensional mismatch between the declared shape and the coordinate
    /// buffer, a cluster count outside `1..=total_points`, or zero points.
    InvalidConfiguration,
}

/// The shape of one clustering run: how many points, their dimensionality,
/// how many clusters to form, and the iteration budget.
#[derive(Debug, Clone, Copy, PartialEq, Eq, Structural)]
pub struct KmeansConfig {
    pub total_points: u32,
    pub spatial_dimensions: u32,
    pub k: u32,
    pub max_iterations: u32,
    /// Reserved input flag; always false.
    pub has_name: bool,
}

impl KmeansConfig {
    /// Builds a configuration from the leading input tokens, in the input
    /// order: total points, spatial dimensions, cluster count, iteration cap.
    /// Any further tokens (the reserved flag among them) are ignored here.
    pub fn from_tokens(v: &Vec<u32>) -> (r: Result<KmeansConfig, KmeansError>)
        ensures
            v@.len() >= 4 <==> r is Ok,
            r matches Ok(cfg) ==> {
                &&& cfg.total_points == v@[0]
                &&& cfg.spatial_dimensions == v@[1]
                &&& cfg.k == v@[2]
                &&& cfg.max_iterations == v@[3]
                &&& !cfg.has_name
            },
    {
        if v.len() < 4 {
            return Err(KmeansError::InvalidConfiguration);
        }
        Ok(KmeansConfig {
            total_points: v[0],
            spatial_dimensions: v[1],
            k: v[2],
            max_iterations: v[3],
            has_name: false,
        })
    }

    /// Validates the configuration against the number of coordinate values
    /// that follow it in the input: the buffer must hold exactly
    /// `total_points * spatial_dimensions` values, and the cluster count must
    /// lie in `1..=total_points`.
    pub fn check(&self, coord_count: usize) -> (r: Result<(), KmeansError>)
        ensures
            r is Ok <==> {
                &&& self.total_points * self.spatial_dimensions == coord_count
                &&& 1 <= self.k <= self.total_points
            },
    {
        proof {
            assert((self.total_points as int) * (self.spatial_dimensions as int) < 0x10000000000000000int)
                by (nonlinear_arith)
                requires
                    self.total_points <= 0xffffffffu32,
                    self.spatial_dimensions <= 0xffffffffu32,
            ;
        }
        let expected: u64 = (self.total_points as u64) * (self.spatial_dimensions as u64);
        if self.k == 0 || self.k > self.total_points {
            return Err(KmeansError::InvalidConfiguration);
        }
        if coord_count as u64 != expected {
            return Err(KmeansError::InvalidConfiguration);
        }
        Ok(())
    }
}

} // verus!
