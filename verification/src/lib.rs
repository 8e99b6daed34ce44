//! A sparse voxel octree whose nodes are packed into 32-bit words, together
//! with the plain-value decisions of the renderer that draws it.

pub mod bits;
pub mod octant;
pub mod tree;
pub mod input;
pub mod keyboard;
pub mod device;
pub mod swapchain;
pub mod render;
pub mod grid;
pub mod legacy;
mod vkraw;
