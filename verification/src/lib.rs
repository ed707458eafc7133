//! Verified core of an N-body galaxy simulation: the index structure of the Barnes-Hut octree,
//! the octant numbering, the spatial hash and union-find used to merge touching bodies, and the
//! decisions of the genetic search over initial conditions.

pub mod octant;
pub mod octree;
pub mod cluster;
pub mod spatial_hash;
pub mod genalg;
