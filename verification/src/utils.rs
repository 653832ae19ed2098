//! Helpers for building container block entities.

use vstd::prelude::*;
use crate::entity::ItemSlot;
use crate::tree::Tag;

verus! {

/// The minimum number of filled slots a single-stack-type container needs
/// for a comparator to read signal strength `ss`:
/// `max(ss, ceil(ss * 27 / 14) - 2)`.
pub open spec fn barrel_slot_count(ss: int) -> int {
    let c = (ss * 27 + 13) / 14 - 2;
    if c > ss {
        c
    } else {
        ss
    }
}

/// Builds the slots of a barrel whose comparator reads signal strength
/// `ss`: full stacks of `minecraft:redstone_block`, one per slot, in slot
/// order.
pub fn barrel_ss(ss: usize) -> (items: Vec<ItemSlot>)
    requires
        ss <= 15,
    ensures
        items@.len() == barrel_slot_count(ss as int),
        forall|i: int|
            0 <= i < items@.len() ==> {
                &&& (#[trigger] items@[i]).id@ == "minecraft:redstone_block"@
                &&& items@[i].extra matches Tag::Compound(cs) && cs@.len() == 0
                &&& items@[i].count == 64
                &&& items@[i].slot as int == i
            },
{
    let m = (ss * 27 + 13) / 14;
    let c = if m >= 2 {
        m - 2
    } else {
        0
    };
    let n = if c > ss {
        c
    } else {
        ss
    };
    proof {
        assert(n as int == barrel_slot_count(ss as int));
        assert(n <= 27);
    }
    let mut items: Vec<ItemSlot> = Vec::new();
    while items.len() < n
        invariant
            items@.len() <= n,
            n <= 27,
            forall|i: int|
                0 <= i < items@.len() ==> {
                    &&& (#[trigger] items@[i]).id@ == "minecraft:redstone_block"@
                    &&& items@[i].extra matches Tag::Compound(cs) && cs@.len() == 0
                    &&& items@[i].count == 64
                    &&& items@[i].slot as int == i
                },
        decreases n - items.len(),
    {
        let slot = items.len() as i8;
        items.push(
            ItemSlot {
                id: "minecraft:redstone_block".to_owned(),
                extra: Tag::Compound(Vec::new()),
                count: 64,
                slot,
            },
        );
    }
    items
}

} // verus!
