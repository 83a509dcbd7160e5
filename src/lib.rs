//! A fixed-timestep kernel for circles in the box [-1, 1] x [-1, 1]: the
//! flat particle buffer, its compaction into a working collection, and the
//! uniform-grid broad phase that picks the pairs the narrow phase examines.
//!
//! Scalars travel through the library as the bit patterns of IEEE-754
//! single-precision numbers: the library moves, compacts and places them,
//! and leaves all arithmetic on them to its caller.

pub mod grid;
pub mod layout;
pub mod store;
pub mod tick;

pub use layout::{Layout, STRIDE};
pub use store::{Color, Particle, Vec2, from_particles, scalar_is_zero, to_particles};
pub use grid::{GridCell, candidate_pairs, cell_index, get_spatial_grid, neighbor_cells};
pub use tick::SUBSTEP_COUNT;
