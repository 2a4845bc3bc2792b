//! Verified terrain bookkeeping for the missile-physics sandbox: chunk
//! streaming around the viewer, the collision height cache, marching-squares
//! contour topology and the index layout of the chunk meshes.

pub mod contour;
pub mod debug_axes;
pub mod coord_map;
pub mod grid;
pub mod height_cache;
pub mod streaming;
