//! Verified core of a voxel ray marcher: fixed-point packet positions,
//! the voxel grid lookup, the direction map and the recursive
//! evaluation of ray packets.

pub mod fixed_point;
pub mod grid;
pub mod direction_map;
pub mod coins;
pub mod voxels;
pub mod ray_packet;
pub mod camera;
pub mod marcher;
pub mod mesh;
