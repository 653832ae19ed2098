//! The nested key-value tree assembled by the export pipeline and handed
//! to a generic tree encoder.

use vstd::prelude::*;
use crate::encode::{canon_cells, spec_block_data, spec_palette};
use crate::grid::Schematic;

verus! {

/// One node of the nested key-value tree.  The export pipeline only
/// assembles such trees; turning them into bytes is the business of an
/// external tree encoder.
#[derive(Debug)]
pub enum Tag {
    /// A 32-bit integer scalar.
    Int(i32),
    /// A 16-bit integer scalar.
    Short(i16),
    /// A flat byte sequence.
    Bytes(Vec<u8>),
    /// A sequence of 32-bit integers.
    IntArray(Vec<i32>),
    /// A sequence of arbitrary nodes.
    List(Vec<Tag>),
    /// Named child nodes, in insertion order.
    Compound(Vec<(String, Tag)>),
}

/// The value a 16-bit unsigned extent takes when stored in a signed
/// 16-bit tree scalar.
pub open spec fn as_i16(v: int) -> int {
    if v < 32768 {
        v
    } else {
        v - 65536
    }
}

/// Stores a 16-bit extent as a signed 16-bit scalar.
fn to_i16(v: u16) -> (r: i16)
    ensures
        r as int == as_i16(v as int),
{
    if v <= 32767 {
        v as i16
    } else {
        ((v as i32) - 65536) as i16
    }
}

/// A palette holds at least one entry for a non-empty voxel sequence, and
/// never more entries than voxels.
pub proof fn lemma_palette_len(vs: Seq<Seq<char>>)
    ensures
        spec_palette(vs).len() <= vs.len(),
        vs.len() > 0 ==> spec_palette(vs).len() >= 1,
    decreases vs.len(),
{
    if vs.len() > 0 {
        lemma_palette_len(vs.drop_last());
        let p = spec_palette(vs.drop_last());
        if p.contains(vs.last()) {
            let w = choose|j: int| 0 <= j < p.len() && p[j] == vs.last();
        }
    }
}

impl Schematic {
    /// Assembles the schematic tree: version scalars, extents, the palette
    /// map, the packed block data, and the block entity list, in that
    /// order.
    pub fn build_tree(&self) -> (t: Tag)
        requires
            self.wf(),
        ensures
            ({
                let pal = spec_palette(canon_cells(*self));
                &&& t matches Tag::Compound(fields)
                &&& fields@.len() == 10
                &&& fields@[0].0@ == "Version"@
                &&& fields@[0].1 == Tag::Int(2)
                &&& fields@[1].0@ == "DataVersion"@
                &&& fields@[1].1 matches Tag::Int(dv) && dv as int == self.dv()
                &&& fields@[2].0@ == "Metadata"@
                &&& fields@[2].1 matches Tag::Compound(md) && md@.len() == 0
                &&& fields@[3].0@ == "Width"@
                &&& fields@[3].1 matches Tag::Short(w) && w as int == as_i16(self.sx())
                &&& fields@[4].0@ == "Height"@
                &&& fields@[4].1 matches Tag::Short(h) && h as int == as_i16(self.sy())
                &&& fields@[5].0@ == "Length"@
                &&& fields@[5].1 matches Tag::Short(l) && l as int == as_i16(self.sz())
                &&& fields@[6].0@ == "PaletteMax"@
                &&& fields@[6].1 matches Tag::Int(pm) && pm as int == pal.len() - 1
                &&& fields@[7].0@ == "Palette"@
                &&& fields@[7].1 matches Tag::Compound(pcs) && pcs@.len() == pal.len() && (forall|
                    k: int,
                |
                    0 <= k < pal.len() ==> (#[trigger] pcs@[k]).0@ == pal[k] && pcs@[k].1
                        == Tag::Int(k as i32))
                &&& fields@[8].0@ == "BlockData"@
                &&& fields@[8].1 matches Tag::Bytes(bd) && bd@ == spec_block_data(
                    canon_cells(*self),
                    pal,
                )
                &&& fields@[9].0@ == "BlockEntities"@
                &&& fields@[9].1 matches Tag::List(es) && es@.len() == self.entities().len() && (
                forall|k: int|
                    0 <= k < self.entities().len() ==> {
                        &&& #[trigger] es@[k] matches Tag::Compound(ec)
                        &&& ec@.len() == 1
                        &&& ec@[0].0@ == "Pos"@
                        &&& ec@[0].1 matches Tag::IntArray(ps)
                        &&& ps@.len() == 3
                        &&& ps@[0] as int == self.entities()[k].0.0 as int
                        &&& ps@[1] as int == self.entities()[k].0.1 as int
                        &&& ps@[2] as int == self.entities()[k].0.2 as int
                    })
            }),
    {
        let (palette, data) = self.encode_blocks();
        let ghost pal = spec_palette(canon_cells(*self));
        proof {
            lemma_palette_len(canon_cells(*self));
            assert(canon_cells(*self).len() == self.cells().len());
            assert(self.sx() * self.sy() * self.sz() >= 1) by (nonlinear_arith)
                requires
                    self.sx() >= 1,
                    self.sy() >= 1,
                    self.sz() >= 1,
            ;
        }
        let mut pcs: Vec<(String, Tag)> = Vec::new();
        let mut k: usize = 0;
        while k < palette.len()
            invariant
                k <= palette.len(),
                palette@.map_values(|s: String| s@) == pal,
                pal.len() <= i32::MAX as int,
                pcs@.len() == k,
                forall|t: int|
                    0 <= t < k ==> (#[trigger] pcs@[t]).0@ == pal[t] && pcs@[t].1 == Tag::Int(
                        t as i32,
                    ),
            decreases palette.len() - k,
        {
            pcs.push((palette[k].clone(), Tag::Int(k as i32)));
            k = k + 1;
        }
        let mut es: Vec<Tag> = Vec::new();
        let mut k: usize = 0;
        while k < self.entity_count()
            invariant
                k <= self.entities().len(),
                es@.len() == k,
                forall|t: int|
                    0 <= t < k ==> {
                        &&& #[trigger] es@[t] matches Tag::Compound(ec)
                        &&& ec@.len() == 1
                        &&& ec@[0].0@ == "Pos"@
                        &&& ec@[0].1 matches Tag::IntArray(ps)
                        &&& ps@.len() == 3
                        &&& ps@[0] as int == self.entities()[t].0.0 as int
                        &&& ps@[1] as int == self.entities()[t].0.1 as int
                        &&& ps@[2] as int == self.entities()[t].0.2 as int
                    },
            decreases self.entities().len() - k,
        {
            let pos = &self.entity_at(k).0;
            let mut ps: Vec<i32> = Vec::new();
            ps.push(pos.0 as i32);
            ps.push(pos.1 as i32);
            ps.push(pos.2 as i32);
            let mut ec: Vec<(String, Tag)> = Vec::new();
            ec.push(("Pos".to_owned(), Tag::IntArray(ps)));
            es.push(Tag::Compound(ec));
            k = k + 1;
        }
        let mut fields: Vec<(String, Tag)> = Vec::new();
        fields.push(("Version".to_owned(), Tag::Int(2)));
        fields.push(("DataVersion".to_owned(), Tag::Int(self.data_version())));
        fields.push(("Metadata".to_owned(), Tag::Compound(Vec::new())));
        fields.push(("Width".to_owned(), Tag::Short(to_i16(self.size_x()))));
        fields.push(("Height".to_owned(), Tag::Short(to_i16(self.size_y()))));
        fields.push(("Length".to_owned(), Tag::Short(to_i16(self.size_z()))));
        fields.push(("PaletteMax".to_owned(), Tag::Int((palette.len() - 1) as i32)));
        fields.push(("Palette".to_owned(), Tag::Compound(pcs)));
        fields.push(("BlockData".to_owned(), Tag::Bytes(data)));
        fields.push(("BlockEntities".to_owned(), Tag::List(es)));
        Tag::Compound(fields)
    }
}

} // verus!
