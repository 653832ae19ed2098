//! Building and encoding palette-compressed voxel schematics.
//!
//! A `Schematic` is a fixed-size 3-D grid of block identifiers together
//! with a registry of block entities.  The encode pipeline canonicalizes
//! block identifiers, deduplicates them into a dense palette in first-seen
//! traversal order, packs the per-voxel palette indices as base-128 varints,
//! and assembles the result into a nested key-value tree ready for a generic
//! tree encoder.

use vstd::prelude::*;

pub mod block;
pub mod encode;
pub mod entity;
pub mod grid;
pub mod tree;
pub mod utils;

verus! {

/// Data version number of Minecraft 1.18.2.
pub const MC_1_18_2: i32 = 2975;

} // verus!
