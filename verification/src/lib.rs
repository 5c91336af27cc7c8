//! Voxel surface mesh generation.
//!
//! Converts a sparse registry of colored unit cubes into a compact surface
//! representation: greedy-meshed quads for the visible faces, and
//! deduplicated, colinearly merged line segments for the visible edges.
//! Both are serialized into flat 32-bit buffers for GPU upload, where every
//! entry is the bit pattern of an IEEE-754 single-precision float.

pub mod buffers;
pub mod color;
pub mod edges;
pub mod faces;
pub mod floatbits;
pub mod generator;
pub mod greedy;
pub mod merge;
pub mod mesher;
pub mod pos;
pub mod quad;
pub mod style;

pub use color::{interpolate, Color4};
pub use edges::{collect_edges, Line};
pub use floatbits::float_bits;
pub use generator::BlockMeshGenerator;
pub use greedy::{greedy_mesh_2d, Cell, Rect};
pub use merge::combine_lines;
pub use mesher::quads_for_direction;
pub use pos::{Axis, AxisDirection, BlockPos, Direction};
pub use quad::Quad;
pub use style::RenderStyle;
