//! The encode pipeline: palette deduplication in first-seen order and
//! little-endian base-128 varint packing of the per-voxel palette indices.

use std::collections::HashMap;
use vstd::prelude::*;
use crate::block::spec_canon;
use crate::grid::Schematic;

verus! {

/// The little-endian base-128 varint encoding of `n`: each byte carries
/// seven data bits, and the high bit of a byte is set exactly when more
/// bytes follow.
pub open spec fn spec_varint(n: nat) -> Seq<u8>
    decreases n,
{
    if n < 128 {
        seq![n as u8]
    } else {
        seq![(n % 128 + 128) as u8] + spec_varint(n / 128)
    }
}

/// Appends the varint encoding of `value` to `out`.
pub fn push_varint(out: &mut Vec<u8>, value: usize)
    ensures
        final(out)@ == old(out)@ + spec_varint(value as nat),
{
    let mut v: usize = value;
    while v >= 128
        invariant
            old(out)@ + spec_varint(value as nat) == out@ + spec_varint(v as nat),
        decreases v,
    {
        out.push((v % 128 + 128) as u8);
        proof {
            assert(old(out)@ + spec_varint(value as nat) =~= out@ + spec_varint((v / 128) as nat));
        }
        v = v / 128;
    }
    out.push(v as u8);
    proof {
        assert(out@ =~= old(out)@ + spec_varint(value as nat));
    }
}

/// The canonical strings of a grid's cells, in traversal order.
pub open spec fn canon_cells(g: Schematic) -> Seq<Seq<char>> {
    g.cells().map_values(|b: crate::block::BlockModel| spec_canon(b))
}

/// The palette of a voxel sequence: its distinct values in first-seen order.
pub open spec fn spec_palette(vs: Seq<Seq<char>>) -> Seq<Seq<char>>
    decreases vs.len(),
{
    if vs.len() == 0 {
        Seq::empty()
    } else {
        let p = spec_palette(vs.drop_last());
        if p.contains(vs.last()) {
            p
        } else {
            p.push(vs.last())
        }
    }
}

/// Index of the first occurrence of `s` in palette `p`, or `p.len()` if
/// absent.
pub open spec fn pal_index(p: Seq<Seq<char>>, s: Seq<char>) -> int
    decreases p.len(),
{
    if p.len() == 0 {
        0
    } else if p[0] == s {
        0
    } else {
        1 + pal_index(p.skip(1), s)
    }
}

/// The concatenated varint encodings of each voxel's palette index, in
/// traversal order.
pub open spec fn spec_block_data(vs: Seq<Seq<char>>, p: Seq<Seq<char>>) -> Seq<u8>
    decreases vs.len(),
{
    if vs.len() == 0 {
        Seq::empty()
    } else {
        spec_block_data(vs.drop_last(), p) + spec_varint(pal_index(p, vs.last()) as nat)
    }
}

proof fn lemma_pal_index(p: Seq<Seq<char>>, s: Seq<char>)
    ensures
        0 <= pal_index(p, s) <= p.len(),
        p.contains(s) ==> pal_index(p, s) < p.len() && p[pal_index(p, s)] == s,
        forall|j: int| 0 <= j < pal_index(p, s) ==> p[j] != s,
        !p.contains(s) ==> pal_index(p, s) == p.len(),
    decreases p.len(),
{
    if p.len() == 0 {
    } else if p[0] == s {
    } else {
        lemma_pal_index(p.skip(1), s);
        assert forall|j: int| 0 <= j < pal_index(p, s) implies p[j] != s by {
            if j > 0 {
                assert(p.skip(1)[j - 1] == p[j]);
            }
        }
        if p.contains(s) {
            let w = choose|i: int| 0 <= i < p.len() && p[i] == s;
            assert(p.skip(1)[w - 1] == s);
        }
        if p.skip(1).contains(s) {
            let w = choose|i: int| 0 <= i < p.skip(1).len() && p.skip(1)[i] == s;
            assert(p[w + 1] == s);
        }
    }
}

/// A scan that saw no match before `i`, and a match at `i` unless it ran
/// out, has found the first palette index.
proof fn lemma_pal_index_is(p: Seq<Seq<char>>, s: Seq<char>, i: int)
    requires
        0 <= i <= p.len(),
        forall|j: int| 0 <= j < i ==> p[j] != s,
        i < p.len() ==> p[i] == s,
    ensures
        pal_index(p, s) == i,
        p.contains(s) <==> i < p.len(),
{
    lemma_pal_index(p, s);
    if i < p.len() {
        assert(p.contains(s));
        if pal_index(p, s) < i {
            assert(p[pal_index(p, s)] != s);
        }
    } else {
        if p.contains(s) {
            let w = choose|j: int| 0 <= j < p.len() && p[j] == s;
            assert(p[w] != s);
        }
    }
}

/// A palette index does not change when the palette is extended, for a
/// value the shorter palette already holds.
proof fn lemma_pal_index_prefix(p1: Seq<Seq<char>>, p2: Seq<Seq<char>>, s: Seq<char>)
    requires
        p1.is_prefix_of(p2),
        p1.contains(s),
    ensures
        pal_index(p2, s) == pal_index(p1, s),
    decreases p1.len(),
{
    lemma_pal_index(p1, s);
    assert(p1 =~= p2.subrange(0, p1.len() as int));
    assert forall|j: int| 0 <= j < pal_index(p1, s) implies p2[j] != s by {
        assert(p2[j] == p1[j]);
    }
    assert(p2[pal_index(p1, s)] == p1[pal_index(p1, s)]);
    lemma_pal_index_is(p2, s, pal_index(p1, s));
}

/// Every element of a voxel sequence is in its palette.
/// Palette determinism: the palette and the packed block data are
/// functions of the grid's cells alone, so two grids with equal cells —
/// in particular, one grid encoded twice — yield identical palette index
/// assignments and identical block data bytes.
pub proof fn lemma_encode_deterministic(a: Schematic, b: Schematic)
    requires
        a.cells() == b.cells(),
    ensures
        spec_palette(canon_cells(a)) == spec_palette(canon_cells(b)),
        spec_block_data(canon_cells(a), spec_palette(canon_cells(a))) == spec_block_data(
            canon_cells(b),
            spec_palette(canon_cells(b)),
        ),
{
    assert(canon_cells(a) =~= canon_cells(b));
}

/// The palette holds each canonical string at most once, so it maps the
/// distinct strings of the voxel sequence bijectively onto dense indices.
pub proof fn lemma_palette_unique(vs: Seq<Seq<char>>)
    ensures
        forall|i: int, j: int|
            0 <= i < j < spec_palette(vs).len() ==> spec_palette(vs)[i] != spec_palette(vs)[j],
    decreases vs.len(),
{
    if vs.len() > 0 {
        lemma_palette_unique(vs.drop_last());
        let p = spec_palette(vs.drop_last());
        let q = spec_palette(vs);
        if !p.contains(vs.last()) {
            assert forall|i: int, j: int| 0 <= i < j < q.len() implies q[i] != q[j] by {
                if j < p.len() {
                    assert(q[i] == p[i] && q[j] == p[j]);
                } else {
                    assert(q[i] == p[i] && q[j] == vs.last());
                    if p[i] == vs.last() {
                        assert(p.contains(vs.last()));
                    }
                }
            }
        }
    }
}

proof fn lemma_palette_complete(vs: Seq<Seq<char>>)
    ensures
        forall|t: int| 0 <= t < vs.len() ==> spec_palette(vs).contains(#[trigger] vs[t]),
    decreases vs.len(),
{
    if vs.len() > 0 {
        lemma_palette_complete(vs.drop_last());
        let p = spec_palette(vs.drop_last());
        assert forall|t: int| 0 <= t < vs.len() implies spec_palette(vs).contains(
            #[trigger] vs[t],
        ) by {
            if t < vs.len() - 1 {
                assert(vs.drop_last()[t] == vs[t]);
                assert(p.contains(vs[t]));
                let w = choose|j: int| 0 <= j < p.len() && p[j] == vs[t];
                assert(spec_palette(vs)[w] == vs[t]);
            } else {
                if p.contains(vs.last()) {
                    let w = choose|j: int| 0 <= j < p.len() && p[j] == vs.last();
                    assert(spec_palette(vs)[w] == vs[t]);
                } else {
                    assert(spec_palette(vs).last() == vs[t]);
                }
            }
        }
    }
}

/// Block data does not depend on entries of the palette beyond those the
/// voxels use.
proof fn lemma_block_data_extend(vs: Seq<Seq<char>>, p1: Seq<Seq<char>>, p2: Seq<Seq<char>>)
    requires
        p1.is_prefix_of(p2),
        forall|t: int| 0 <= t < vs.len() ==> p1.contains(#[trigger] vs[t]),
    ensures
        spec_block_data(vs, p1) == spec_block_data(vs, p2),
    decreases vs.len(),
{
    if vs.len() > 0 {
        assert(forall|t: int|
            0 <= t < vs.len() - 1 ==> p1.contains(#[trigger] vs.drop_last()[t]));
        lemma_block_data_extend(vs.drop_last(), p1, p2);
        lemma_pal_index_prefix(p1, p2, vs.last());
    }
}

impl Schematic {
    /// Runs the palette builder and the varint encoder over the grid in
    /// traversal order: returns the canonical block strings in first-seen
    /// order, and the concatenated varint encodings of every voxel's
    /// palette index.
    pub fn encode_blocks(&self) -> (r: (Vec<String>, Vec<u8>))
        requires
            self.wf(),
        ensures
            r.0@.map_values(|s: String| s@) == spec_palette(canon_cells(*self)),
            r.1@ == spec_block_data(canon_cells(*self), spec_palette(canon_cells(*self))),
    {
        let ghost cc = canon_cells(*self);
        let mut palette: Vec<String> = Vec::new();
        // Accelerates the palette lookup to amortized O(1) per voxel; a hit
        // is validated against the palette itself, so nothing is proved
        // about the map.
        let mut index: HashMap<String, usize> = HashMap::new();
        let mut data: Vec<u8> = Vec::new();
        let n = self.cell_count();
        proof {
            assert(cc.take(0) =~= Seq::<Seq<char>>::empty());
            assert(palette@.map_values(|s: String| s@) =~= spec_palette(cc.take(0)));
        }
        let mut i: usize = 0;
        while i < n
            invariant
                i <= n,
                n == cc.len(),
                self.wf(),
                cc == canon_cells(*self),
                palette@.map_values(|s: String| s@) == spec_palette(cc.take(i as int)),
                data@ == spec_block_data(cc.take(i as int), spec_palette(cc.take(i as int))),
                palette@.len() <= i,
            decreases n - i,
        {
            let c = self.cell_at(i).canonical_string();
            proof {
                assert(cc[i as int] == spec_canon(self.cells()[i as int]));
            }
            let ghost pv = palette@.map_values(|s: String| s@);
            proof {
                lemma_palette_unique(cc.take(i as int));
            }
            let mut found: Option<usize> = None;
            match index.get(&c) {
                Some(hit) => {
                    let j0 = *hit;
                    if j0 < palette.len() {
                        if palette[j0].eq(&c) {
                            proof {
                                assert(pv[j0 as int] == c@);
                                assert forall|t: int| 0 <= t < j0 implies pv[t] != c@ by {
                                    assert(pv[t] != pv[j0 as int]);
                                }
                                lemma_pal_index_is(pv, c@, j0 as int);
                            }
                            found = Some(j0);
                        }
                    }
                },
                None => {},
            }
            let idx: usize = match found {
                Some(j0) => j0,
                None => {
                    let mut j: usize = 0;
                    loop
                        invariant
                            j <= palette@.len(),
                            palette@.map_values(|s: String| s@) == pv,
                            forall|t: int| 0 <= t < j ==> pv[t] != c@,
                        ensures
                            j <= palette@.len(),
                            palette@.map_values(|s: String| s@) == pv,
                            forall|t: int| 0 <= t < j ==> pv[t] != c@,
                            j < palette@.len() ==> pv[j as int] == c@,
                        decreases palette@.len() - j,
                    {
                        if j >= palette.len() {
                            break;
                        }
                        if palette[j].eq(&c) {
                            proof {
                                assert(pv[j as int] == c@);
                            }
                            break;
                        }
                        proof {
                            assert(pv[j as int] == palette@[j as int]@);
                        }
                        j = j + 1;
                    }
                    proof {
                        lemma_pal_index_is(pv, c@, j as int);
                    }
                    j
                },
            };
            let ghost pnew = spec_palette(cc.take(i + 1));
            proof {
                assert(cc.take(i + 1).drop_last() =~= cc.take(i as int));
                assert(cc.take(i + 1).last() == cc[i as int]);
                assert(cc[i as int] == c@);
            }
            if idx == palette.len() {
                index.insert(c.clone(), idx);
                palette.push(c);
                proof {
                    assert(palette@.map_values(|s: String| s@) =~= pv.push(cc[i as int]));
                    assert(pnew == pv.push(cc[i as int]));
                }
            } else {
                proof {
                    assert(pv.contains(c@));
                    assert(pnew == pv);
                }
            }
            proof {
                assert(pv.is_prefix_of(pnew));
                lemma_palette_complete(cc.take(i as int));
                assert(forall|t: int|
                    0 <= t < i ==> pv.contains(#[trigger] cc.take(i as int)[t]));
                assert(forall|t: int| 0 <= t < i ==> pv.contains(#[trigger] cc[t])) by {
                    assert(forall|t: int| 0 <= t < i ==> cc.take(i as int)[t] == #[trigger] cc[t]);
                }
                lemma_block_data_extend(cc.take(i as int), pv, pnew);
                if idx as int == pv.len() {
                    lemma_pal_index_is(pnew, c@, idx as int);
                } else {
                    lemma_pal_index_prefix(pv, pnew, c@);
                }
                assert(pal_index(pnew, c@) == idx as int);
            }
            push_varint(&mut data, idx);
            proof {
                assert(data@ =~= spec_block_data(cc.take(i + 1), pnew));
            }
            i = i + 1;
        }
        proof {
            assert(cc.take(n as int) =~= cc);
        }
        (palette, data)
    }
}

} // verus!
