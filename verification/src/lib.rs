//! Voxel world logic: terrain classification, chunk edits, greedy chunk
//! meshing, the block-detail atlas layout, chunk streaming decisions and the
//! plain-text save format.
//!
//! Everything that needs floating point (the fBm height noise, colours,
//! camera maths) or the game engine lives outside this crate; the functions
//! here take the integer results of that work (for example a column height
//! field) as plain values.

pub mod config;
pub mod noise;
pub mod blocks;
pub mod edits;
pub mod greedy;
pub mod heights;
pub mod mesher;
pub mod assemble;
pub mod chunk;
pub mod atlas;
pub mod save;
pub mod stream;
pub mod viz;
pub mod faces;
