//! Layer storage: the two interchangeable tile backends of a chunk.
//!
//! A dense layer keeps a fixed-length vector with one slot per cell, marking
//! absent tiles with the sentinel alpha `0`; every cell is addressable.  A
//! sparse layer keeps a mapping from cell index to tile; only occupied cells
//! consume memory.  Both expose the same operations, so a chunk can pick the
//! backend per depth-layer by expected occupancy.

use crate::tile::{sentinel_tile, zero_color, Color, RawTile};
use vstd::arithmetic::div_mod::{
    lemma_fundamental_div_mod, lemma_fundamental_div_mod_converse, lemma_mod_bound,
};
use vstd::prelude::*;

verus! {

/// What a dense layer returns for a cell: the stored tile unless the slot is
/// out of range or holds the sentinel alpha.
pub open spec fn dense_get(tiles: Seq<RawTile>, index: usize) -> Option<RawTile> {
    if index < tiles.len() && tiles[index as int].color.a != 0 {
        Some(tiles[index as int])
    } else {
        None
    }
}

/// What a sparse layer returns for a cell: the mapped tile, if any.
pub open spec fn sparse_get(tiles: Map<usize, RawTile>, index: usize) -> Option<RawTile> {
    if tiles.dom().contains(index) {
        Some(tiles[index])
    } else {
        None
    }
}

/// The mapping described by an association list, later entries winning.
pub open spec fn pairs_to_map(s: Seq<(usize, RawTile)>) -> Map<usize, RawTile>
    decreases s.len(),
{
    if s.len() == 0 {
        Map::empty()
    } else {
        pairs_to_map(s.drop_last()).insert(s.last().0, s.last().1)
    }
}

/// Whether no two entries of an association list share a key.
pub open spec fn unique_keys(s: Seq<(usize, RawTile)>) -> bool {
    forall|i: int, j: int| 0 <= i < j < s.len() ==> (#[trigger] s[i]).0 != (#[trigger] s[j]).0
}

/// A key is in the mapping of an association list exactly when some entry
/// carries it.
pub proof fn lemma_pairs_to_map_dom(s: Seq<(usize, RawTile)>, k: usize)
    ensures
        pairs_to_map(s).dom().contains(k) <==> (exists|j: int|
            0 <= j < s.len() && (#[trigger] s[j]).0 == k),
    decreases s.len(),
{
    if s.len() > 0 {
        let s0 = s.drop_last();
        lemma_pairs_to_map_dom(s0, k);
        if s.last().0 == k {
            assert((s[s.len() - 1]).0 == k);
        } else {
            if pairs_to_map(s).dom().contains(k) {
                let j = choose|j: int| 0 <= j < s0.len() && (#[trigger] s0[j]).0 == k;
                assert((s[j]).0 == k);
            }
            if exists|j: int| 0 <= j < s.len() && (#[trigger] s[j]).0 == k {
                let j = choose|j: int| 0 <= j < s.len() && (#[trigger] s[j]).0 == k;
                assert(j != s.len() - 1);
                assert((s0[j]).0 == k);
            }
        }
    }
}

/// Under unique keys, each entry of an association list gives its key's
/// mapped value.
pub proof fn lemma_pairs_to_map_get(s: Seq<(usize, RawTile)>, j: int)
    requires
        unique_keys(s),
        0 <= j < s.len(),
    ensures
        pairs_to_map(s).dom().contains((s[j]).0),
        pairs_to_map(s)[(s[j]).0] == (s[j]).1,
    decreases s.len(),
{
    lemma_pairs_to_map_dom(s, (s[j]).0);
    if j < s.len() - 1 {
        let s0 = s.drop_last();
        assert forall|i1: int, i2: int| 0 <= i1 < i2 < s0.len() implies (#[trigger] s0[i1]).0 != (
        #[trigger] s0[i2]).0 by {
            assert(s0[i1] == s[i1] && s0[i2] == s[i2]);
        }
        lemma_pairs_to_map_get(s0, j);
        assert(s0[j] == s[j]);
        assert((s[j]).0 != (s[s.len() - 1]).0);
    }
}

/// The kind of storage a layer uses: a full vector or a sparse mapping.
///
/// Dense suits layers expected to be nearly full, such as backgrounds; sparse
/// suits layers expected to be mostly empty, such as props, because
/// enumerating its occupied cells costs only the number of entries.
#[derive(Copy, Clone, Eq, PartialEq, Ord, PartialOrd, Hash, Debug, Structural)]
pub enum LayerKind {
    /// A layer backed by one slot per cell.
    Dense,
    /// A layer backed by a mapping from cell index to tile.
    Sparse,
}

/// A layer with dense sprite tiles: one slot per cell, absent cells holding
/// the sentinel alpha `0`.
#[derive(Clone, Debug)]
pub struct DenseLayer {
    /// Render-mesh handle the external renderer associated with this layer.
    pub mesh: Option<u64>,
    /// One stored tile per cell of the chunk.
    pub tiles: Vec<RawTile>,
}

impl View for DenseLayer {
    type V = Seq<RawTile>;

    open spec fn view(&self) -> Seq<RawTile> {
        self.tiles@
    }
}

impl DenseLayer {
    /// Constructs a new dense layer with tiles.
    pub fn new(tiles: Vec<RawTile>) -> (layer: DenseLayer)
        ensures
            layer@ == tiles@,
            layer.mesh is None,
    {
        DenseLayer { mesh: None, tiles }
    }

    /// Returns the render-mesh handle, if one was set.
    pub fn mesh(&self) -> (m: Option<u64>)
        ensures
            m == self.mesh,
    {
        self.mesh
    }

    /// Sets the render-mesh handle for the layer.
    pub fn set_mesh(&mut self, mesh: u64)
        ensures
            final(self).mesh == Some(mesh),
            final(self)@ == old(self)@,
    {
        self.mesh = Some(mesh);
    }

    /// Stores a tile in the slot at `index`; an out-of-range index is a
    /// non-fatal no-op.  Slot occupancy is positional, so a sentinel-alpha
    /// tile is stored as given.
    pub fn set_tile(&mut self, index: usize, tile: RawTile)
        ensures
            index < old(self)@.len() ==> final(self)@ == old(self)@.update(index as int, tile),
            index >= old(self)@.len() ==> final(self)@ == old(self)@,
            final(self).mesh == old(self).mesh,
    {
        if index < self.tiles.len() {
            self.tiles.set(index, tile);
        }
    }

    /// Logically deletes the tile at `index` by zeroing its alpha; the slot
    /// stays allocated.  An out-of-range index is a no-op.
    pub fn remove_tile(&mut self, index: usize)
        ensures
            index < old(self)@.len() ==> final(self)@ == old(self)@.update(
                index as int,
                (RawTile {
                    color: Color { a: 0, ..old(self)@[index as int].color },
                    ..old(self)@[index as int]
                }),
            ),
            index >= old(self)@.len() ==> final(self)@ == old(self)@,
            final(self).mesh == old(self).mesh,
    {
        if index < self.tiles.len() {
            let t = self.tiles[index];
            self.tiles.set(
                index,
                RawTile {
                    index: t.index,
                    color: Color { r: t.color.r, g: t.color.g, b: t.color.b, a: 0 },
                },
            );
        }
    }

    /// Returns the tile at `index`, or nothing if the slot is out of range or
    /// holds the sentinel alpha.
    pub fn get_tile(&self, index: usize) -> (r: Option<RawTile>)
        ensures
            r == dense_get(self@, index),
    {
        if index < self.tiles.len() {
            let t = self.tiles[index];
            if t.color.a != 0 {
                Some(t)
            } else {
                None
            }
        } else {
            None
        }
    }

    /// Returns the indices of all occupied slots, in increasing order.
    pub fn get_tile_indices(&self) -> (r: Vec<usize>)
        ensures
            forall|j: int|
                0 <= j < r@.len() ==> (#[trigger] r@[j]) < self@.len()
                    && self@[r@[j] as int].color.a != 0,
            forall|i: int|
                0 <= i < self@.len() && (#[trigger] self@[i]).color.a != 0 ==> r@.contains(
                    i as usize,
                ),
            forall|j1: int, j2: int| 0 <= j1 < j2 < r@.len() ==> r@[j1] < r@[j2],
    {
        let mut indices: Vec<usize> = Vec::new();
        let mut i: usize = 0;
        while i < self.tiles.len()
            invariant
                i <= self@.len(),
                forall|j: int|
                    0 <= j < indices@.len() ==> (#[trigger] indices@[j]) < i
                        && self@[indices@[j] as int].color.a != 0,
                forall|k: int|
                    0 <= k < i && (#[trigger] self@[k]).color.a != 0 ==> indices@.contains(
                        k as usize,
                    ),
                forall|j1: int, j2: int| 0 <= j1 < j2 < indices@.len() ==> indices@[j1]
                    < indices@[j2],
            decreases self@.len() - i,
        {
            if self.tiles[i].color.a != 0 {
                let ghost pre = indices@;
                indices.push(i);
                proof {
                    assert forall|k: int|
                        0 <= k < i + 1 && (#[trigger] self@[k]).color.a != 0 implies indices@
                        .contains(k as usize) by {
                        if k < i {
                            let jw = choose|jw: int|
                                0 <= jw < pre.len() && (#[trigger] pre[jw]) == k as usize;
                            assert(indices@[jw] == k as usize);
                        } else {
                            assert(indices@[indices@.len() - 1] == i as usize);
                        }
                    }
                }
            } else {
                proof {
                    assert forall|k: int|
                        0 <= k < i + 1 && (#[trigger] self@[k]).color.a != 0 implies indices@
                        .contains(k as usize) by {
                        assert(k < i);
                    }
                }
            }
            i += 1;
        }
        indices
    }
}

/// A layer with sparse sprite tiles: a mapping from cell index to tile, kept
/// as an association list with unique keys.
#[derive(Clone, Debug)]
pub struct SparseLayer {
    /// Render-mesh handle the external renderer associated with this layer.
    pub mesh: Option<u64>,
    /// The occupied cells, one entry per index.
    pub tiles: Vec<(usize, RawTile)>,
}

impl View for SparseLayer {
    type V = Map<usize, RawTile>;

    open spec fn view(&self) -> Map<usize, RawTile> {
        pairs_to_map(self.tiles@)
    }
}

impl SparseLayer {
    /// Representation invariant: one entry per index, and no entry stores the
    /// sentinel alpha, so the stored set stays minimal.
    pub open spec fn wf(self) -> bool {
        &&& unique_keys(self.tiles@)
        &&& forall|i: int|
            0 <= i < self.tiles@.len() ==> (#[trigger] self.tiles@[i]).1.color.a != 0
    }

    /// What storing `tile` at `index` does to the mapping: a sentinel-alpha
    /// tile removes the entry instead of inserting it.
    pub open spec fn apply(m: Map<usize, RawTile>, index: usize, tile: RawTile) -> Map<
        usize,
        RawTile,
    > {
        if tile.color.a == 0 {
            m.remove(index)
        } else {
            m.insert(index, tile)
        }
    }

    /// The mapping that storing each listed tile in turn produces.
    pub open spec fn from_pairs(s: Seq<(usize, RawTile)>) -> Map<usize, RawTile>
        decreases s.len(),
    {
        if s.len() == 0 {
            Map::empty()
        } else {
            Self::apply(Self::from_pairs(s.drop_last()), s.last().0, s.last().1)
        }
    }

    /// Constructs a new sparse layer holding the listed tiles, applied in
    /// order with the same semantics as [`SparseLayer::set_tile`].
    pub fn new(tiles: Vec<(usize, RawTile)>) -> (layer: SparseLayer)
        ensures
            layer@ == Self::from_pairs(tiles@),
            layer.wf(),
            layer.mesh is None,
    {
        let mut layer = SparseLayer { mesh: None, tiles: Vec::new() };
        let mut i: usize = 0;
        proof {
            assert(tiles@.take(0) =~= Seq::<(usize, RawTile)>::empty());
        }
        while i < tiles.len()
            invariant
                i <= tiles@.len(),
                layer.wf(),
                layer.mesh is None,
                layer@ == Self::from_pairs(tiles@.take(i as int)),
            decreases tiles@.len() - i,
        {
            let (index, tile) = tiles[i];
            layer.set_tile(index, tile);
            proof {
                assert(tiles@.take(i + 1).drop_last() =~= tiles@.take(i as int));
                assert(tiles@.take(i + 1).last() == tiles@[i as int]);
            }
            i += 1;
        }
        proof {
            assert(tiles@.take(tiles@.len() as int) =~= tiles@);
        }
        layer
    }

    /// Returns the render-mesh handle, if one was set.
    pub fn mesh(&self) -> (m: Option<u64>)
        ensures
            m == self.mesh,
    {
        self.mesh
    }

    /// Sets the render-mesh handle for the layer.
    pub fn set_mesh(&mut self, mesh: u64)
        ensures
            final(self).mesh == Some(mesh),
            final(self)@ == old(self)@,
    {
        self.mesh = Some(mesh);
    }

    /// Stores a tile at `index`, any index being acceptable.  A tile with the
    /// sentinel alpha removes the entry instead, keeping the stored set
    /// minimal.
    pub fn set_tile(&mut self, index: usize, tile: RawTile)
        requires
            old(self).wf(),
        ensures
            final(self).wf(),
            final(self)@ == Self::apply(old(self)@, index, tile),
            final(self).mesh == old(self).mesh,
    {
        if tile.color.a == 0 {
            self.remove_tile(index);
            return ;
        }
        let ghost s = self.tiles@;
        let mut j: usize = 0;
        while j < self.tiles.len()
            invariant
                j <= s.len(),
                self.tiles@ == s,
                self.mesh == old(self).mesh,
                s == old(self).tiles@,
                old(self).wf(),
                tile.color.a != 0,
                forall|i: int| 0 <= i < j ==> (#[trigger] s[i]).0 != index,
            decreases s.len() - j,
        {
            if self.tiles[j].0 == index {
                self.tiles.set(j, (index, tile));
                proof {
                    let jj = j as int;
                    let s2 = self.tiles@;
                    assert(s2 == s.update(jj, (index, tile)));
                    assert forall|i1: int, i2: int| 0 <= i1 < i2 < s2.len() implies (
                    #[trigger] s2[i1]).0 != (#[trigger] s2[i2]).0 by {
                        assert((s[i1]).0 != (s[i2]).0);
                        assert((s2[i1]).0 == (s[i1]).0 && (s2[i2]).0 == (s[i2]).0);
                    }
                    let expected = pairs_to_map(s).insert(index, tile);
                    assert forall|k: usize| true implies pairs_to_map(s2).dom().contains(k)
                        == expected.dom().contains(k) by {
                        lemma_pairs_to_map_dom(s2, k);
                        lemma_pairs_to_map_dom(s, k);
                        if k == index {
                            assert((s2[jj]).0 == k);
                        } else {
                            if pairs_to_map(s2).dom().contains(k) {
                                let jw = choose|jw: int|
                                    0 <= jw < s2.len() && (#[trigger] s2[jw]).0 == k;
                                assert((s[jw]).0 == k);
                            }
                            if pairs_to_map(s).dom().contains(k) {
                                let jw = choose|jw: int|
                                    0 <= jw < s.len() && (#[trigger] s[jw]).0 == k;
                                assert((s2[jw]).0 == k);
                            }
                        }
                    }
                    assert forall|k: usize| pairs_to_map(s2).dom().contains(k) implies pairs_to_map(
                        s2,
                    )[k] == expected[k] by {
                        lemma_pairs_to_map_dom(s2, k);
                        let jw = choose|jw: int| 0 <= jw < s2.len() && (#[trigger] s2[jw]).0 == k;
                        lemma_pairs_to_map_get(s2, jw);
                        if jw == jj {
                            assert(k == index);
                        } else {
                            assert(s2[jw] == s[jw]);
                            assert((s[jw]).0 != (s[jj]).0);
                            assert(k != index);
                            lemma_pairs_to_map_get(s, jw);
                        }
                    }
                    assert(pairs_to_map(s2) =~= expected);
                }
                return ;
            }
            j += 1;
        }
        self.tiles.push((index, tile));
        proof {
            let s2 = self.tiles@;
            assert(s2.drop_last() =~= s);
            assert(pairs_to_map(s2) == pairs_to_map(s).insert(index, tile));
        }
    }

    /// Deletes the entry at `index`, if present.
    pub fn remove_tile(&mut self, index: usize)
        requires
            old(self).wf(),
        ensures
            final(self).wf(),
            final(self)@ == old(self)@.remove(index),
            final(self).mesh == old(self).mesh,
    {
        let ghost s = self.tiles@;
        let mut j: usize = 0;
        while j < self.tiles.len()
            invariant
                j <= s.len(),
                self.tiles@ == s,
                self.mesh == old(self).mesh,
                s == old(self).tiles@,
                old(self).wf(),
                forall|i: int| 0 <= i < j ==> (#[trigger] s[i]).0 != index,
            decreases s.len() - j,
        {
            if self.tiles[j].0 == index {
                let ghost jj = j as int;
                self.tiles.remove(j);
                proof {
                    let s2 = self.tiles@;
                    assert(s2 == s.remove(jj));
                    s.remove_ensures(jj);
                    assert forall|i1: int, i2: int| 0 <= i1 < i2 < s2.len() implies (
                    #[trigger] s2[i1]).0 != (#[trigger] s2[i2]).0 by {
                        let m1: int = if i1 < jj { i1 } else { i1 + 1 };
                        let m2: int = if i2 < jj { i2 } else { i2 + 1 };
                        assert(s2[i1] == s[m1] && s2[i2] == s[m2]);
                        assert((s[m1]).0 != (s[m2]).0);
                    }
                    let expected = pairs_to_map(s).remove(index);
                    assert forall|k: usize| true implies pairs_to_map(s2).dom().contains(k)
                        == expected.dom().contains(k) by {
                        lemma_pairs_to_map_dom(s2, k);
                        lemma_pairs_to_map_dom(s, k);
                        if pairs_to_map(s2).dom().contains(k) {
                            let jw = choose|jw: int|
                                0 <= jw < s2.len() && (#[trigger] s2[jw]).0 == k;
                            let mw: int = if jw < jj { jw } else { jw + 1 };
                            assert(s2[jw] == s[mw]);
                            assert((s[mw]).0 == k);
                            if mw < jj {
                                assert((s[mw]).0 != (s[jj]).0);
                            } else {
                                assert((s[jj]).0 != (s[mw]).0);
                            }
                            assert(k != index);
                        }
                        if pairs_to_map(s).dom().contains(k) && k != index {
                            let jw = choose|jw: int| 0 <= jw < s.len() && (#[trigger] s[jw]).0 == k;
                            assert(jw != jj);
                            let mw: int = if jw < jj { jw } else { jw - 1 };
                            assert(s2[mw] == s[jw]);
                            assert((s2[mw]).0 == k);
                        }
                    }
                    assert forall|k: usize| pairs_to_map(s2).dom().contains(k) implies pairs_to_map(
                        s2,
                    )[k] == expected[k] by {
                        lemma_pairs_to_map_dom(s2, k);
                        let jw = choose|jw: int| 0 <= jw < s2.len() && (#[trigger] s2[jw]).0 == k;
                        lemma_pairs_to_map_get(s2, jw);
                        let mw: int = if jw < jj { jw } else { jw + 1 };
                        assert(s2[jw] == s[mw]);
                        lemma_pairs_to_map_get(s, mw);
                        if mw < jj {
                            assert((s[mw]).0 != (s[jj]).0);
                        } else {
                            assert((s[jj]).0 != (s[mw]).0);
                        }
                        assert(k != index);
                    }
                    assert(pairs_to_map(s2) =~= expected);
                }
                return ;
            }
            j += 1;
        }
        proof {
            lemma_pairs_to_map_dom(s, index);
            assert(!pairs_to_map(s).dom().contains(index));
            assert(pairs_to_map(s) =~= pairs_to_map(s).remove(index));
        }
    }

    /// Returns the tile mapped at `index`, if any.
    pub fn get_tile(&self, index: usize) -> (r: Option<RawTile>)
        requires
            self.wf(),
        ensures
            r == sparse_get(self@, index),
    {
        let mut j: usize = 0;
        while j < self.tiles.len()
            invariant
                j <= self.tiles@.len(),
                self.wf(),
                forall|i: int| 0 <= i < j ==> (#[trigger] self.tiles@[i]).0 != index,
            decreases self.tiles@.len() - j,
        {
            let (k, t) = self.tiles[j];
            if k == index {
                proof {
                    lemma_pairs_to_map_get(self.tiles@, j as int);
                }
                return Some(t);
            }
            j += 1;
        }
        proof {
            lemma_pairs_to_map_dom(self.tiles@, index);
        }
        None
    }

    /// Returns the indices of all occupied cells, one per entry, in storage
    /// order; together they are exactly the occupied set.
    pub fn get_tile_indices(&self) -> (r: Vec<usize>)
        requires
            self.wf(),
        ensures
            r@.len() == self.tiles@.len(),
            forall|j: int| 0 <= j < r@.len() ==> r@[j] == (#[trigger] self.tiles@[j]).0,
            forall|j: int| 0 <= j < r@.len() ==> self@.dom().contains(#[trigger] r@[j]),
            forall|k: usize| self@.dom().contains(k) ==> r@.contains(k),
    {
        let mut indices: Vec<usize> = Vec::new();
        let mut j: usize = 0;
        while j < self.tiles.len()
            invariant
                j <= self.tiles@.len(),
                indices@.len() == j,
                self.wf(),
                forall|i: int| 0 <= i < j ==> indices@[i] == (#[trigger] self.tiles@[i]).0,
            decreases self.tiles@.len() - j,
        {
            let (k, _t) = self.tiles[j];
            indices.push(k);
            j += 1;
        }
        proof {
            assert forall|jx: int| 0 <= jx < indices@.len() implies self@.dom().contains(
                #[trigger] indices@[jx],
            ) by {
                lemma_pairs_to_map_get(self.tiles@, jx);
            }
            assert forall|k: usize| self@.dom().contains(k) implies indices@.contains(k) by {
                lemma_pairs_to_map_dom(self.tiles@, k);
                let jw = choose|jw: int|
                    0 <= jw < self.tiles@.len() && (#[trigger] self.tiles@[jw]).0 == k;
                assert(indices@[jw] == k);
            }
        }
        indices
    }
}


/// The sprite index each attribute cell of a dense layer carries: every slot
/// is emitted, four vertices per slot.
pub open spec fn dense_attr_indices(tiles: Seq<RawTile>) -> Seq<usize> {
    Seq::new(4 * tiles.len(), |k: int| tiles[k / 4].index)
}

/// The color each attribute cell of a dense layer carries.
pub open spec fn dense_attr_colors(tiles: Seq<RawTile>) -> Seq<Color> {
    Seq::new(4 * tiles.len(), |k: int| tiles[k / 4].color)
}

/// The sprite index at attribute cell `k` of a sparse layer: the mapped
/// tile's index, or `0` for an empty cell.
pub open spec fn sparse_index_at(tiles: Map<usize, RawTile>, k: int) -> usize {
    if tiles.dom().contains((k / 4) as usize) {
        tiles[(k / 4) as usize].index
    } else {
        0
    }
}

/// The color at attribute cell `k` of a sparse layer: the mapped tile's
/// color, or the zeroed color for an empty cell.
pub open spec fn sparse_color_at(tiles: Map<usize, RawTile>, k: int) -> Color {
    if tiles.dom().contains((k / 4) as usize) {
        tiles[(k / 4) as usize].color
    } else {
        zero_color()
    }
}

/// The fixed-stride index buffer of a sparse layer over `area` cells: zero
/// everywhere except the four-wide windows of occupied cells.
pub open spec fn sparse_attr_indices(tiles: Map<usize, RawTile>, area: int) -> Seq<usize> {
    Seq::new((4 * area) as nat, |k: int| sparse_index_at(tiles, k))
}

/// The fixed-stride color buffer of a sparse layer over `area` cells.
pub open spec fn sparse_attr_colors(tiles: Map<usize, RawTile>, area: int) -> Seq<Color> {
    Seq::new((4 * area) as nat, |k: int| sparse_color_at(tiles, k))
}

/// Splits the tiles of a dense layer into an index buffer and a color buffer
/// for the renderer, four vertices per slot, every slot emitted.
pub fn dense_tiles_to_attributes(tiles: &Vec<RawTile>) -> (r: (Vec<usize>, Vec<Color>))
    ensures
        r.0@ == dense_attr_indices(tiles@),
        r.1@ == dense_attr_colors(tiles@),
{
    let mut tile_indexes: Vec<usize> = Vec::new();
    let mut tile_colors: Vec<Color> = Vec::new();
    let mut i: usize = 0;
    while i < tiles.len()
        invariant
            i <= tiles@.len(),
            tile_indexes@.len() == 4 * i,
            tile_colors@.len() == 4 * i,
            forall|k: int| 0 <= k < 4 * i ==> (#[trigger] tile_indexes@[k]) == tiles@[k / 4].index,
            forall|k: int| 0 <= k < 4 * i ==> (#[trigger] tile_colors@[k]) == tiles@[k / 4].color,
        decreases tiles@.len() - i,
    {
        let ghost pre_idx = tile_indexes@;
        let ghost pre_col = tile_colors@;
        let t = tiles[i];
        tile_indexes.push(t.index);
        tile_indexes.push(t.index);
        tile_indexes.push(t.index);
        tile_indexes.push(t.index);
        tile_colors.push(t.color);
        tile_colors.push(t.color);
        tile_colors.push(t.color);
        tile_colors.push(t.color);
        proof {
            assert forall|k: int| 0 <= k < 4 * (i + 1) implies (#[trigger] tile_indexes@[k])
                == tiles@[k / 4].index && (#[trigger] tile_colors@[k]) == tiles@[k / 4].color by {
                if k < 4 * i {
                    assert(tile_indexes@[k] == pre_idx[k]);
                    assert(tile_colors@[k] == pre_col[k]);
                } else {
                    lemma_fundamental_div_mod_converse(k, 4, i as int, k - 4 * i);
                }
            }
        }
        i += 1;
    }
    proof {
        assert(tile_indexes@ =~= dense_attr_indices(tiles@));
        assert(tile_colors@ =~= dense_attr_colors(tiles@));
    }
    (tile_indexes, tile_colors)
}

/// Splits the entries of a sparse layer into fixed-stride index and color
/// buffers covering `area` cells: the buffers are zero-filled and only the
/// four-wide windows of occupied cells are overwritten, so the renderer can
/// rely on the stride without asking about occupancy.
pub fn sparse_tiles_to_attributes(area: usize, tiles: &Vec<(usize, RawTile)>) -> (r: (
    Vec<usize>,
    Vec<Color>,
))
    requires
        4 * area as int <= usize::MAX,
    ensures
        r.0@ == sparse_attr_indices(pairs_to_map(tiles@), area as int),
        r.1@ == sparse_attr_colors(pairs_to_map(tiles@), area as int),
{
    let mut tile_indexes: Vec<usize> = Vec::new();
    let mut tile_colors: Vec<Color> = Vec::new();
    let mut n: usize = 0;
    while n < area
        invariant
            n <= area,
            tile_indexes@.len() == 4 * n,
            tile_colors@.len() == 4 * n,
            forall|k: int| 0 <= k < 4 * n ==> (#[trigger] tile_indexes@[k]) == 0,
            forall|k: int| 0 <= k < 4 * n ==> (#[trigger] tile_colors@[k]) == zero_color(),
        decreases area - n,
    {
        tile_indexes.push(0);
        tile_indexes.push(0);
        tile_indexes.push(0);
        tile_indexes.push(0);
        let zero = Color::clear();
        tile_colors.push(zero);
        tile_colors.push(zero);
        tile_colors.push(zero);
        tile_colors.push(zero);
        n += 1;
    }
    proof {
        assert forall|k: int| 0 <= k < 4 * area implies (#[trigger] tile_indexes@[k])
            == sparse_index_at(pairs_to_map(tiles@.take(0)), k) && (#[trigger] tile_colors@[k])
            == sparse_color_at(pairs_to_map(tiles@.take(0)), k) by {
            assert(tiles@.take(0) =~= Seq::<(usize, RawTile)>::empty());
        }
    }
    let mut j: usize = 0;
    while j < tiles.len()
        invariant
            j <= tiles@.len(),
            4 * area as int <= usize::MAX,
            tile_indexes@.len() == 4 * area,
            tile_colors@.len() == 4 * area,
            forall|k: int|
                0 <= k < 4 * area ==> (#[trigger] tile_indexes@[k]) == sparse_index_at(
                    pairs_to_map(tiles@.take(j as int)),
                    k,
                ),
            forall|k: int|
                0 <= k < 4 * area ==> (#[trigger] tile_colors@[k]) == sparse_color_at(
                    pairs_to_map(tiles@.take(j as int)),
                    k,
                ),
        decreases tiles@.len() - j,
    {
        let ghost pre_idx = tile_indexes@;
        let ghost pre_col = tile_colors@;
        let ghost prefix = pairs_to_map(tiles@.take(j as int));
        let (ti, tt) = tiles[j];
        if ti < area {
            let base = 4 * ti;
            tile_indexes.set(base, tt.index);
            tile_indexes.set(base + 1, tt.index);
            tile_indexes.set(base + 2, tt.index);
            tile_indexes.set(base + 3, tt.index);
            tile_colors.set(base, tt.color);
            tile_colors.set(base + 1, tt.color);
            tile_colors.set(base + 2, tt.color);
            tile_colors.set(base + 3, tt.color);
        }
        proof {
            assert(tiles@.take(j + 1).drop_last() =~= tiles@.take(j as int));
            assert(tiles@.take(j + 1).last() == tiles@[j as int]);
            let next = pairs_to_map(tiles@.take(j + 1));
            assert(next == prefix.insert(ti, tt));
            assert forall|k: int|
                0 <= k < 4 * area implies (#[trigger] tile_indexes@[k]) == sparse_index_at(next, k)
                && (#[trigger] tile_colors@[k]) == sparse_color_at(next, k) by {
                lemma_fundamental_div_mod(k, 4);
                lemma_mod_bound(k, 4);
                let c = k / 4;
                assert(0 <= c < area) by (nonlinear_arith)
                    requires
                        k == 4 * c + k % 4,
                        0 <= k % 4 < 4,
                        0 <= k,
                        k < 4 * area,
                ;
                if c == ti as int {
                    assert(4 * c <= k < 4 * c + 4);
                    assert(tile_indexes@[k] == tt.index);
                    assert(tile_colors@[k] == tt.color);
                } else {
                    if ti < area {
                        assert(!(4 * ti <= k < 4 * ti + 4)) by (nonlinear_arith)
                            requires
                                k == 4 * c + k % 4,
                                0 <= k % 4 < 4,
                                c != ti as int,
                        ;
                    }
                    assert(tile_indexes@[k] == pre_idx[k]);
                    assert(tile_colors@[k] == pre_col[k]);
                    assert((c as usize) != ti);
                }
            }
        }
        j += 1;
    }
    proof {
        assert(tiles@.take(tiles@.len() as int) =~= tiles@);
        assert(tile_indexes@ =~= sparse_attr_indices(pairs_to_map(tiles@), area as int));
        assert(tile_colors@ =~= sparse_attr_colors(pairs_to_map(tiles@), area as int));
    }
    (tile_indexes, tile_colors)
}

/// The contents of a layer as mathematics: a slot sequence for a dense layer,
/// an index-to-tile mapping for a sparse one.
pub enum LayerV {
    /// View of a dense layer.
    Dense(Seq<RawTile>),
    /// View of a sparse layer.
    Sparse(Map<usize, RawTile>),
}

/// Inner enum used for storing either a dense or sparse layer; operations
/// dispatch by match, so both backends expose one capability set.
#[derive(Clone, Debug)]
pub enum LayerKindInner {
    /// Inner dense layer storage.
    Dense(DenseLayer),
    /// Inner sparse layer storage.
    Sparse(SparseLayer),
}

impl View for LayerKindInner {
    type V = LayerV;

    open spec fn view(&self) -> LayerV {
        match self {
            LayerKindInner::Dense(d) => LayerV::Dense(d@),
            LayerKindInner::Sparse(s) => LayerV::Sparse(s@),
        }
    }
}

/// A sprite layer which can store either a dense or a sparse backend.
#[derive(Clone, Debug)]
pub struct SpriteLayer {
    /// Enum storage of the kind of layer.
    pub inner: LayerKindInner,
}

impl View for SpriteLayer {
    type V = LayerV;

    open spec fn view(&self) -> LayerV {
        self.inner@
    }
}

/// What reading a cell of a layer returns.
pub open spec fn layer_v_get(v: LayerV, index: usize) -> Option<RawTile> {
    match v {
        LayerV::Dense(s) => dense_get(s, index),
        LayerV::Sparse(m) => sparse_get(m, index),
    }
}

/// What storing a tile does to a layer: dense stores in place (out-of-range
/// is a no-op), sparse inserts or, for a sentinel-alpha tile, removes.
pub open spec fn layer_v_set(v: LayerV, index: usize, tile: RawTile) -> LayerV {
    match v {
        LayerV::Dense(s) => LayerV::Dense(
            if index < s.len() {
                s.update(index as int, tile)
            } else {
                s
            },
        ),
        LayerV::Sparse(m) => LayerV::Sparse(SparseLayer::apply(m, index, tile)),
    }
}

/// What removing a cell does to a layer: dense zeroes the slot's alpha,
/// sparse deletes the entry.
pub open spec fn layer_v_remove(v: LayerV, index: usize) -> LayerV {
    match v {
        LayerV::Dense(s) => LayerV::Dense(
            if index < s.len() {
                s.update(
                    index as int,
                    RawTile { color: Color { a: 0, ..s[index as int].color }, ..s[index as int] },
                )
            } else {
                s
            },
        ),
        LayerV::Sparse(m) => LayerV::Sparse(m.remove(index)),
    }
}

/// What clearing a layer leaves: all-sentinel slots or an empty mapping.
pub open spec fn layer_v_clear(v: LayerV) -> LayerV {
    match v {
        LayerV::Dense(s) => LayerV::Dense(Seq::new(s.len(), |i: int| sentinel_tile())),
        LayerV::Sparse(m) => LayerV::Sparse(Map::empty()),
    }
}

/// A freshly materialized layer of the given kind over `area` cells.
pub open spec fn empty_layer_v(kind: LayerKind, area: int) -> LayerV {
    match kind {
        LayerKind::Dense => LayerV::Dense(Seq::new(area as nat, |i: int| sentinel_tile())),
        LayerKind::Sparse => LayerV::Sparse(Map::empty()),
    }
}

/// The fixed-stride index buffer a layer serializes to over `area` cells.
pub open spec fn layer_v_attr_indices(v: LayerV, area: int) -> Seq<usize> {
    match v {
        LayerV::Dense(s) => dense_attr_indices(s),
        LayerV::Sparse(m) => sparse_attr_indices(m, area),
    }
}

/// The fixed-stride color buffer a layer serializes to over `area` cells.
pub open spec fn layer_v_attr_colors(v: LayerV, area: int) -> Seq<Color> {
    match v {
        LayerV::Dense(s) => dense_attr_colors(s),
        LayerV::Sparse(m) => sparse_attr_colors(m, area),
    }
}

impl SpriteLayer {
    /// Representation invariant: a sparse backend keeps unique keys and never
    /// stores a sentinel-alpha tile.
    pub open spec fn rep_wf(self) -> bool {
        match self.inner {
            LayerKindInner::Dense(_) => true,
            LayerKindInner::Sparse(s) => s.wf(),
        }
    }

    /// Whether the layer covers exactly `area` cells.
    pub open spec fn covers(self, area: int) -> bool {
        match self@ {
            LayerV::Dense(s) => s.len() == area,
            LayerV::Sparse(_) => true,
        }
    }

    /// Materializes an empty layer of the given kind over `area` cells.
    pub fn new(kind: LayerKind, area: usize) -> (l: SpriteLayer)
        ensures
            l@ == empty_layer_v(kind, area as int),
            l.rep_wf(),
            l.covers(area as int),
    {
        match kind {
            LayerKind::Dense => {
                let mut tiles: Vec<RawTile> = Vec::new();
                let mut i: usize = 0;
                while i < area
                    invariant
                        i <= area,
                        tiles@.len() == i,
                        forall|k: int| 0 <= k < i ==> (#[trigger] tiles@[k]) == sentinel_tile(),
                    decreases area - i,
                {
                    tiles.push(RawTile::sentinel());
                    i += 1;
                }
                proof {
                    assert(tiles@ =~= Seq::new(area as nat, |i: int| sentinel_tile()));
                }
                SpriteLayer { inner: LayerKindInner::Dense(DenseLayer::new(tiles)) }
            },
            LayerKind::Sparse => {
                SpriteLayer { inner: LayerKindInner::Sparse(SparseLayer::new(Vec::new())) }
            },
        }
    }

    /// Stores a tile at a cell, with the backend's own semantics.
    pub fn set_tile(&mut self, index: usize, tile: RawTile)
        requires
            old(self).rep_wf(),
        ensures
            final(self).rep_wf(),
            final(self)@ == layer_v_set(old(self)@, index, tile),
    {
        match &mut self.inner {
            LayerKindInner::Dense(d) => d.set_tile(index, tile),
            LayerKindInner::Sparse(s) => s.set_tile(index, tile),
        }
    }

    /// Removes the tile at a cell, with the backend's own semantics.
    pub fn remove_tile(&mut self, index: usize)
        requires
            old(self).rep_wf(),
        ensures
            final(self).rep_wf(),
            final(self)@ == layer_v_remove(old(self)@, index),
    {
        match &mut self.inner {
            LayerKindInner::Dense(d) => d.remove_tile(index),
            LayerKindInner::Sparse(s) => s.remove_tile(index),
        }
    }

    /// Returns the tile at a cell, if one is present.
    pub fn get_tile(&self, index: usize) -> (r: Option<RawTile>)
        requires
            self.rep_wf(),
        ensures
            r == layer_v_get(self@, index),
    {
        match &self.inner {
            LayerKindInner::Dense(d) => d.get_tile(index),
            LayerKindInner::Sparse(s) => s.get_tile(index),
        }
    }

    /// Empties the layer: every dense slot becomes the sentinel, a sparse
    /// mapping is cleared.
    pub fn clear(&mut self)
        requires
            old(self).rep_wf(),
        ensures
            final(self).rep_wf(),
            final(self)@ == layer_v_clear(old(self)@),
    {
        match &mut self.inner {
            LayerKindInner::Dense(d) => {
                let n = d.tiles.len();
                let mut tiles: Vec<RawTile> = Vec::new();
                let mut i: usize = 0;
                while i < n
                    invariant
                        i <= n,
                        tiles@.len() == i,
                        forall|k: int| 0 <= k < i ==> (#[trigger] tiles@[k]) == sentinel_tile(),
                    decreases n - i,
                {
                    tiles.push(RawTile::sentinel());
                    i += 1;
                }
                proof {
                    assert(tiles@ =~= Seq::new(n as nat, |i: int| sentinel_tile()));
                }
                d.tiles = tiles;
            },
            LayerKindInner::Sparse(s) => {
                s.tiles = Vec::new();
            },
        }
    }

    /// Serializes the layer into fixed-stride attribute buffers over `area`
    /// cells.
    pub fn tiles_to_attributes(&self, area: usize) -> (r: (Vec<usize>, Vec<Color>))
        requires
            self.rep_wf(),
            4 * area as int <= usize::MAX,
        ensures
            r.0@ == layer_v_attr_indices(self@, area as int),
            r.1@ == layer_v_attr_colors(self@, area as int),
    {
        match &self.inner {
            LayerKindInner::Dense(d) => dense_tiles_to_attributes(&d.tiles),
            LayerKindInner::Sparse(s) => sparse_tiles_to_attributes(area, &s.tiles),
        }
    }
}

/// Whether a dense slot sequence and a sparse mapping answer every cell read
/// identically.
pub open spec fn layers_agree(d: Seq<RawTile>, m: Map<usize, RawTile>) -> bool {
    forall|i: usize| #[trigger] dense_get(d, i) == sparse_get(m, i)
}

/// Law: storing the same tile at the same in-capacity cell of a dense and a
/// sparse layer that agree on every read leaves them agreeing on every read.
/// A dense layer cannot distinguish "removed" from "never set", so agreement
/// also covers sentinel-alpha stores, which a sparse layer turns into
/// removals.
pub proof fn lemma_dense_sparse_set_tile_agree(
    d: Seq<RawTile>,
    m: Map<usize, RawTile>,
    index: usize,
    tile: RawTile,
)
    requires
        layers_agree(d, m),
        index < d.len(),
    ensures
        layers_agree(
            d.update(index as int, tile),
            SparseLayer::apply(m, index, tile),
        ),
{
    let d2 = d.update(index as int, tile);
    let m2 = SparseLayer::apply(m, index, tile);
    assert forall|i: usize| #[trigger] dense_get(d2, i) == sparse_get(m2, i) by {
        assert(dense_get(d, i) == sparse_get(m, i));
    }
}

/// Law: removing the same in-capacity cell from a dense and a sparse layer
/// that agree on every read leaves them agreeing on every read, although the
/// dense layer only zeroes the slot's alpha while the sparse layer deletes
/// the entry.
pub proof fn lemma_dense_sparse_remove_tile_agree(
    d: Seq<RawTile>,
    m: Map<usize, RawTile>,
    index: usize,
)
    requires
        layers_agree(d, m),
        index < d.len(),
    ensures
        layers_agree(
            d.update(
                index as int,
                RawTile { color: Color { a: 0, ..d[index as int].color }, ..d[index as int] },
            ),
            m.remove(index),
        ),
{
    let d2 = d.update(
        index as int,
        RawTile { color: Color { a: 0, ..d[index as int].color }, ..d[index as int] },
    );
    let m2 = m.remove(index);
    assert forall|i: usize| #[trigger] dense_get(d2, i) == sparse_get(m2, i) by {
        assert(dense_get(d, i) == sparse_get(m, i));
    }
}

/// Law: serializing an empty sparse layer over `area` cells yields buffers of
/// exactly `4 * area` zero-valued entries.
pub proof fn lemma_sparse_attr_empty(area: int)
    requires
        0 <= area,
    ensures
        sparse_attr_indices(Map::empty(), area).len() == 4 * area,
        sparse_attr_colors(Map::empty(), area).len() == 4 * area,
        forall|k: int|
            0 <= k < 4 * area ==> #[trigger] sparse_attr_indices(Map::empty(), area)[k] == 0,
        forall|k: int|
            0 <= k < 4 * area ==> #[trigger] sparse_attr_colors(Map::empty(), area)[k]
                == zero_color(),
{
}

/// Law: storing one tile at cell `index` of a sparse layer changes exactly
/// the four-wide attribute window `4*index .. 4*index + 4` and no other
/// entry of either buffer.
pub proof fn lemma_sparse_attr_window(
    m: Map<usize, RawTile>,
    index: usize,
    tile: RawTile,
    area: int,
)
    requires
        0 <= index < area,
        area <= usize::MAX,
        tile.color.a != 0,
    ensures
        forall|k: int|
            4 * index <= k < 4 * index + 4 ==> #[trigger] sparse_attr_indices(
                m.insert(index, tile),
                area,
            )[k] == tile.index && sparse_attr_colors(m.insert(index, tile), area)[k] == tile.color,
        forall|k: int|
            0 <= k < 4 * area && !(4 * index <= k < 4 * index + 4)
                ==> #[trigger] sparse_attr_indices(m.insert(index, tile), area)[k]
                == sparse_attr_indices(m, area)[k] && sparse_attr_colors(m.insert(index, tile), area)[k]
                == sparse_attr_colors(m, area)[k],
{
    let m2 = m.insert(index, tile);
    assert forall|k: int| 4 * index <= k < 4 * index + 4 implies #[trigger] sparse_attr_indices(
        m2,
        area,
    )[k] == tile.index && sparse_attr_colors(m2, area)[k] == tile.color by {
        lemma_fundamental_div_mod_converse(k, 4, index as int, k - 4 * index);
        assert(0 <= k < 4 * area) by (nonlinear_arith)
            requires
                4 * index <= k < 4 * index + 4,
                0 <= index < area,
        ;
    }
    assert forall|k: int|
        0 <= k < 4 * area && !(4 * index <= k < 4 * index + 4)
        implies #[trigger] sparse_attr_indices(m2, area)[k] == sparse_attr_indices(m, area)[k]
        && sparse_attr_colors(m2, area)[k] == sparse_attr_colors(m, area)[k] by {
        lemma_fundamental_div_mod(k, 4);
        lemma_mod_bound(k, 4);
        let c = k / 4;
        assert(0 <= c < area && c != index as int) by (nonlinear_arith)
            requires
                k == 4 * c + k % 4,
                0 <= k % 4 < 4,
                0 <= k < 4 * area,
                0 <= index < area,
                !(4 * index <= k < 4 * index + 4),
        ;
        assert((c as usize) != index);
    }
}


/// Reading any cell of a freshly materialized layer finds nothing: a dense
/// layer starts all-sentinel, a sparse layer starts empty.
pub proof fn lemma_empty_layer_get(kind: LayerKind, area: int, index: usize)
    ensures
        layer_v_get(empty_layer_v(kind, area), index) == None::<RawTile>,
{
}

} // verus!
