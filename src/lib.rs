//! A voxel-decomposed agent simulation engine: the discrete core of the engine
//! (lattice, partition of agents into voxels, interaction plan, save-point clock,
//! checkpoint store and run state machine), verified with Verus.
pub mod clock;
pub mod error;
pub mod lattice;
pub mod partition;
pub mod plan;
pub mod runner;
pub mod store;
