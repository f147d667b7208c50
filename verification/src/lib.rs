//! Procedural generation of a planet: the combinatorial core.
//!
//! A planet is a tessellated sphere whose vertices are grouped into tectonic
//! plates, given a terrain by their height and a biome by their climate. This
//! crate holds the parts of that pipeline that decide rather than calculate:
//!
//! - [`template`]: the topology of the mesh, with the fan of edges and the
//!   neighbours of every vertex;
//! - [`terrain::tectonics`]: the growth of the plates from their seeds, their
//!   ranking and the plate at the pole;
//! - [`terrain`] and [`terrain::biomes`]: the classification of vertices by
//!   height and by climate;
//! - [`scalar`]: the numbers that these compare, and [`lists`] and
//!   [`random`], which the others share.
//!
//! The fields of numbers that flow between these steps (velocities, stress,
//! heights, currents, temperatures, rain) are worked out by the caller.

pub mod lists;
pub mod random;
pub mod scalar;
pub mod template;
pub mod terrain;
