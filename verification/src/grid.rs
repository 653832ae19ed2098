//! The voxel grid: a fixed-size 3-D array of blocks plus a registry of
//! block entities keyed by position.

use vstd::prelude::*;
use crate::block::{air, air_model, Block, BlockModel, props_sorted};
use crate::entity::BlockEntity;

verus! {

/// Why a grid mutation was refused.
#[derive(Debug, Clone, Copy, PartialEq, Eq, Structural)]
pub enum GridError {
    /// The coordinate lies outside the grid extents.
    OutOfBounds,
}

/// A voxel grid of blocks with a block entity registry, ready to be encoded
/// into a schematic tree.
#[derive(Debug)]
pub struct Schematic {
    data_version: i32,
    blocks: Vec<Block>,
    block_entities: Vec<((u16, u16, u16), BlockEntity)>,
    size_x: u16,
    size_y: u16,
    size_z: u16,
}

/// Replaces the entry with position `p`, if any, else appends `(p, e)`.
pub open spec fn upsert_entity(
    es: Seq<((u16, u16, u16), BlockEntity)>,
    p: (u16, u16, u16),
    e: BlockEntity,
) -> Seq<((u16, u16, u16), BlockEntity)>
    decreases es.len(),
{
    if es.len() == 0 {
        seq![(p, e)]
    } else if es[0].0 == p {
        seq![(p, e)] + es.skip(1)
    } else {
        seq![es[0]] + upsert_entity(es.skip(1), p, e)
    }
}

impl Schematic {
    /// The data version handed to the encoder.
    pub closed spec fn dv(self) -> int {
        self.data_version as int
    }

    /// Grid extent along x.
    pub closed spec fn sx(self) -> int {
        self.size_x as int
    }

    /// Grid extent along y.
    pub closed spec fn sy(self) -> int {
        self.size_y as int
    }

    /// Grid extent along z.
    pub closed spec fn sz(self) -> int {
        self.size_z as int
    }

    /// The cells as models, in traversal order: y outermost, then z, then x.
    pub closed spec fn cells(self) -> Seq<BlockModel> {
        self.blocks@.map_values(|b: Block| b@)
    }

    /// The block entity registry, in insertion order.
    pub closed spec fn entities(self) -> Seq<((u16, u16, u16), BlockEntity)> {
        self.block_entities@
    }

    /// Whether a coordinate lies inside the grid extents.
    pub open spec fn in_bounds(self, x: int, y: int, z: int) -> bool {
        0 <= x < self.sx() && 0 <= y < self.sy() && 0 <= z < self.sz()
    }

    /// Position of coordinate `(x, y, z)` in traversal order.
    pub open spec fn cell_index(self, x: int, y: int, z: int) -> int {
        (y * self.sz() + z) * self.sx() + x
    }

    /// The block at a coordinate.
    pub open spec fn cell(self, x: int, y: int, z: int) -> BlockModel {
        self.cells()[self.cell_index(x, y, z)]
    }

    /// Grid invariant: positive extents bounded so that every palette index
    /// fits a 32-bit integer, one well-formed block per coordinate, and
    /// entity positions in bounds and unique.
    pub open spec fn wf(self) -> bool {
        &&& 1 <= self.sx()
        &&& 1 <= self.sy()
        &&& 1 <= self.sz()
        &&& self.sx() * self.sy() * self.sz() <= i32::MAX as int
        &&& self.cells().len() == self.sx() * self.sy() * self.sz()
        &&& forall|i: int|
            0 <= i < self.cells().len() ==> props_sorted(#[trigger] self.cells()[i].props)
        &&& forall|i: int|
            0 <= i < self.entities().len() ==> self.in_bounds(
                (#[trigger] self.entities()[i]).0.0 as int,
                self.entities()[i].0.1 as int,
                self.entities()[i].0.2 as int,
            )
        &&& forall|i: int, j: int|
            0 <= i < j < self.entities().len() ==> (#[trigger] self.entities()[i]).0 != (
            #[trigger] self.entities()[j]).0
    }

    /// Creates a grid of the given extents, every cell filled with
    /// `minecraft:air` and no block entities.
    pub fn new(data_version: i32, size_x: u16, size_y: u16, size_z: u16) -> (s: Schematic)
        requires
            size_x >= 1,
            size_y >= 1,
            size_z >= 1,
            size_x as int * size_y as int * size_z as int <= i32::MAX as int,
        ensures
            s.wf(),
            s.dv() == data_version as int,
            s.sx() == size_x as int,
            s.sy() == size_y as int,
            s.sz() == size_z as int,
            forall|i: int| 0 <= i < s.cells().len() ==> s.cells()[i] == air_model(),
            s.entities() == Seq::<((u16, u16, u16), BlockEntity)>::empty(),
    {
        proof {
            assert(size_x as int * size_y as int <= i32::MAX as int && size_x as int * size_y
                as int * size_z as int <= usize::MAX as int) by (nonlinear_arith)
                requires
                    size_x >= 1,
                    size_y >= 1,
                    size_z >= 1,
                    size_x as int * size_y as int * size_z as int <= i32::MAX as int,
                    i32::MAX as int <= usize::MAX as int,
            ;
        }
        let count = size_x as usize * size_y as usize * size_z as usize;
        let mut blocks: Vec<Block> = Vec::new();
        while blocks.len() < count
            invariant
                blocks.len() <= count,
                forall|i: int| 0 <= i < blocks@.len() ==> (#[trigger] blocks@[i])@ == air_model(),
            decreases count - blocks.len(),
        {
            blocks.push(air());
        }
        let s = Schematic {
            data_version,
            blocks,
            block_entities: Vec::new(),
            size_x,
            size_y,
            size_z,
        };
        proof {
            assert(s.entities() =~= Seq::<((u16, u16, u16), BlockEntity)>::empty());
            assert(forall|i: int|
                0 <= i < s.cells().len() ==> #[trigger] s.cells()[i] == blocks@[i]@);
        }
        s
    }

    /// The data version this grid was created with.
    pub fn data_version(&self) -> (v: i32)
        ensures
            v as int == self.dv(),
    {
        self.data_version
    }

    /// The grid extent along x.
    pub fn size_x(&self) -> (v: u16)
        ensures
            v as int == self.sx(),
    {
        self.size_x
    }

    /// The grid extent along y.
    pub fn size_y(&self) -> (v: u16)
        ensures
            v as int == self.sy(),
    {
        self.size_y
    }

    /// The grid extent along z.
    pub fn size_z(&self) -> (v: u16)
        ensures
            v as int == self.sz(),
    {
        self.size_z
    }

    /// The number of registered block entities.
    pub fn entity_count(&self) -> (n: usize)
        ensures
            n as int == self.entities().len(),
    {
        self.block_entities.len()
    }

    /// The block entity record at insertion position `i`.
    pub fn entity_at(&self, i: usize) -> (e: &((u16, u16, u16), BlockEntity))
        requires
            i < self.entities().len(),
        ensures
            *e == self.entities()[i as int],
    {
        &self.block_entities[i]
    }

    /// The number of cells, in traversal order.
    pub fn cell_count(&self) -> (n: usize)
        ensures
            n as int == self.cells().len(),
    {
        self.blocks.len()
    }

    /// The block at traversal position `i`.
    pub fn cell_at(&self, i: usize) -> (b: &Block)
        requires
            i < self.cells().len(),
        ensures
            b@ == self.cells()[i as int],
    {
        &self.blocks[i]
    }

    /// Writes `block` at `(x, y, z)`; a coordinate outside the extents is
    /// refused and the grid left unchanged.
    pub fn set_block(&mut self, x: usize, y: usize, z: usize, block: Block) -> (r: Result<
        (),
        GridError,
    >)
        requires
            old(self).wf(),
            block.wf(),
        ensures
            final(self).wf(),
            final(self).dv() == old(self).dv(),
            final(self).sx() == old(self).sx(),
            final(self).sy() == old(self).sy(),
            final(self).sz() == old(self).sz(),
            final(self).entities() == old(self).entities(),
            old(self).in_bounds(x as int, y as int, z as int) ==> r == Ok::<(), GridError>(())
                && final(self).cells() == old(self).cells().update(
                old(self).cell_index(x as int, y as int, z as int),
                block@,
            ),
            !old(self).in_bounds(x as int, y as int, z as int) ==> r == Err::<(), GridError>(
                GridError::OutOfBounds,
            ) && *final(self) == *old(self),
    {
        if x < self.size_x as usize && y < self.size_y as usize && z < self.size_z as usize {
            proof {
                lemma_cell_index_bounds(
                    self.sx(),
                    self.sy(),
                    self.sz(),
                    x as int,
                    y as int,
                    z as int,
                );
                assert(self.sx() * self.sy() * self.sz() <= usize::MAX as int);
            }
            let idx = (y * self.size_z as usize + z) * self.size_x as usize + x;
            self.blocks.set(idx, block);
            proof {
                assert(self.cells() =~= old(self).cells().update(
                    old(self).cell_index(x as int, y as int, z as int),
                    block@,
                ));
                assert forall|i: int| 0 <= i < self.cells().len() implies props_sorted(
                    #[trigger] self.cells()[i].props,
                ) by {
                    if i != old(self).cell_index(x as int, y as int, z as int) {
                        assert(self.cells()[i] == old(self).cells()[i]);
                    }
                }
                assert forall|i: int| 0 <= i < self.entities().len() implies self.in_bounds(
                    (#[trigger] self.entities()[i]).0.0 as int,
                    self.entities()[i].0.1 as int,
                    self.entities()[i].0.2 as int,
                ) by {
                    assert(self.entities()[i] == old(self).entities()[i]);
                }
                assert forall|i: int, j: int| 0 <= i < j < self.entities().len() implies (
                #[trigger] self.entities()[i]).0 != (#[trigger] self.entities()[j]).0 by {
                    assert(self.entities()[i] == old(self).entities()[i]);
                    assert(self.entities()[j] == old(self).entities()[j]);
                }
            }
            Ok(())
        } else {
            Err(GridError::OutOfBounds)
        }
    }
}

/// Upserting behind a scanned prefix without the position splits into the
/// prefix and an upsert into the remainder.
proof fn lemma_upsert_split(
    es: Seq<((u16, u16, u16), BlockEntity)>,
    p: (u16, u16, u16),
    e: BlockEntity,
    i: int,
)
    requires
        0 <= i <= es.len(),
        forall|t: int| 0 <= t < i ==> (#[trigger] es[t]).0 != p,
    ensures
        upsert_entity(es, p, e) == es.take(i) + upsert_entity(es.skip(i), p, e),
    decreases i,
{
    if i == 0 {
        assert(es.skip(0) =~= es);
        assert(es.take(0) + upsert_entity(es, p, e) =~= upsert_entity(es, p, e));
    } else {
        lemma_upsert_split(es.skip(1), p, e, i - 1);
        assert(es.skip(1).take(i - 1) =~= es.take(i).skip(1));
        assert(es.skip(1).skip(i - 1) =~= es.skip(i));
        assert(seq![es[0]] + (es.take(i).skip(1) + upsert_entity(es.skip(i), p, e)) =~= es.take(i)
            + upsert_entity(es.skip(i), p, e));
    }
}

impl Schematic {
    /// Registers `entity` at `(x, y, z)`, replacing any entity already at
    /// that position; a coordinate outside the extents is refused and the
    /// grid left unchanged.
    pub fn set_block_entity(&mut self, x: u16, y: u16, z: u16, entity: BlockEntity) -> (r: Result<
        (),
        GridError,
    >)
        requires
            old(self).wf(),
        ensures
            final(self).wf(),
            final(self).dv() == old(self).dv(),
            final(self).sx() == old(self).sx(),
            final(self).sy() == old(self).sy(),
            final(self).sz() == old(self).sz(),
            final(self).cells() == old(self).cells(),
            old(self).in_bounds(x as int, y as int, z as int) ==> r == Ok::<(), GridError>(())
                && final(self).entities() == upsert_entity(old(self).entities(), (x, y, z), entity),
            !old(self).in_bounds(x as int, y as int, z as int) ==> r == Err::<(), GridError>(
                GridError::OutOfBounds,
            ) && *final(self) == *old(self),
    {
        if !(x < self.size_x && y < self.size_y && z < self.size_z) {
            return Err(GridError::OutOfBounds);
        }
        let ghost es = self.block_entities@;
        let mut i: usize = 0;
        loop
            invariant
                i <= self.block_entities.len(),
                self.block_entities@ == es,
                forall|t: int| 0 <= t < i ==> (#[trigger] es[t]).0 != (x, y, z),
            ensures
                i <= self.block_entities.len(),
                self.block_entities@ == es,
                forall|t: int| 0 <= t < i ==> (#[trigger] es[t]).0 != (x, y, z),
                i < es.len() ==> es[i as int].0 == (x, y, z),
            decreases self.block_entities.len() - i,
        {
            if i >= self.block_entities.len() {
                break;
            }
            let q = &self.block_entities[i].0;
            if q.0 == x && q.1 == y && q.2 == z {
                proof {
                    assert(es[i as int].0 == (x, y, z));
                }
                break;
            }
            i = i + 1;
        }
        proof {
            lemma_upsert_split(es, (x, y, z), entity, i as int);
        }
        if i < self.block_entities.len() {
            self.block_entities.set(i, ((x, y, z), entity));
            proof {
                assert(es.skip(i as int)[0].0 == (x, y, z));
                assert(upsert_entity(es.skip(i as int), (x, y, z), entity) == seq![
                    ((x, y, z), entity),
                ] + es.skip(i as int).skip(1));
                assert(self.block_entities@ =~= es.take(i as int) + (seq![((x, y, z), entity)]
                    + es.skip(i as int).skip(1)));
            }
        } else {
            self.block_entities.push(((x, y, z), entity));
            proof {
                assert(es.skip(i as int) =~= Seq::<((u16, u16, u16), BlockEntity)>::empty());
                assert(self.block_entities@ =~= es.take(i as int) + seq![((x, y, z), entity)]);
            }
        }
        proof {
            let r = self.entities();
            assert forall|t: int| 0 <= t < r.len() implies self.in_bounds(
                (#[trigger] r[t]).0.0 as int,
                r[t].0.1 as int,
                r[t].0.2 as int,
            ) by {
                if t != i {
                    assert(r[t] == es[t]);
                    assert(old(self).entities()[t] == es[t]);
                }
            }
            assert forall|t: int, u: int| 0 <= t < u < r.len() implies (#[trigger] r[t]).0 != (
            #[trigger] r[u]).0 by {
                if t != i && u != i {
                    assert(r[t] == es[t] && r[u] == es[u]);
                    assert(old(self).entities()[t] == es[t]);
                    assert(old(self).entities()[u] == es[u]);
                } else if t == i {
                    assert(r[u] == es[u]);
                    if i < es.len() {
                        assert(old(self).entities()[t] == es[t]);
                        assert(old(self).entities()[u] == es[u]);
                    }
                } else {
                    assert(r[t] == es[t]);
                }
            }
            assert forall|t: int| 0 <= t < self.cells().len() implies props_sorted(
                #[trigger] self.cells()[t].props,
            ) by {
                assert(self.cells()[t] == old(self).cells()[t]);
            }
        }
        Ok(())
    }
}

/// The traversal-order position of an in-bounds coordinate is a valid cell
/// index.
pub proof fn lemma_cell_index_bounds(sx: int, sy: int, sz: int, x: int, y: int, z: int)
    by (nonlinear_arith)
    requires
        0 <= x < sx,
        0 <= y < sy,
        0 <= z < sz,
    ensures
        0 <= y * sz,
        y * sz + z <= (y * sz + z) * sx + x,
        0 <= (y * sz + z) * sx + x < sx * sy * sz,
{
}

} // verus!
