//! Verified core of a toroidal particle simulation: a spatial hash grid over a
//! wrapping world and the bookkeeping that decides how particles are spawned,
//! recycled and coloured.

pub mod spatial_hash;
pub mod particles;
