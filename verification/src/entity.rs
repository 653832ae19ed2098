//! Block entities: auxiliary payloads attached to voxel positions.

use vstd::prelude::*;
use crate::tree::Tag;

verus! {

/// An item slot in a container.
#[derive(Debug)]
pub struct ItemSlot {
    /// The item identifier.
    pub id: String,
    /// Opaque auxiliary payload tree.
    pub extra: Tag,
    /// Stack size, 0 to 64.
    pub count: u8,
    /// Slot index within the container.
    pub slot: i8,
}

/// A block entity payload.  The variant set is closed for now but meant to
/// grow, so consumers must not assume exhaustiveness.
#[derive(Debug)]
#[non_exhaustive]
pub enum BlockEntity {
    /// A barrel holding item slots.
    Barrel { items: Vec<ItemSlot> },
}

} // verus!
