use vstd::prelude::*;

verus! {

/// Every way a simulation run can fail.
#[derive(Clone, Copy, Debug, PartialEq, Eq, Structural)]
pub enum SimulationError {
    /// A setting is out of its allowed range.
    Configuration,
    /// The voxel grid has no voxels in some dimension, or too many to index.
    InvalidDomain,
    /// An agent lies outside the domain.
    OutOfBounds { agent: usize },
    /// An agent's force, velocity or position is not finite.
    Numerical { agent: usize },
    /// A checkpoint could not be written or read.
    Storage,
}

} // verus!
