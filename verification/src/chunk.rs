//! Chunks: fixed-size blocks of tiles organised into depth-ordered layers.
//!
//! A chunk owns a grid of optional sprite layers indexed by depth and layer
//! slot, occupies one coordinate in chunk space, and carries the optional
//! render-mesh and entity handles the external renderer associated with it.

use crate::coord::{Dimension3, Point2};
use crate::layer::{
    empty_layer_v, layer_v_attr_colors, layer_v_attr_indices, layer_v_clear, layer_v_get,
    layer_v_remove, layer_v_set, LayerKind, LayerV, SpriteLayer,
};
use crate::tile::{Color, RawTile};
use vstd::prelude::*;

verus! {

/// The index buffer that serializing one slot row contributes: each present
/// layer's buffer in slot order, absent slots contributing nothing.
pub open spec fn row_attr_indices(row: Seq<Option<LayerV>>, area: int) -> Seq<usize>
    decreases row.len(),
{
    if row.len() == 0 {
        Seq::empty()
    } else {
        row_attr_indices(row.drop_last(), area) + (match row.last() {
            Some(v) => layer_v_attr_indices(v, area),
            None => Seq::empty(),
        })
    }
}

/// The color buffer that serializing one slot row contributes.
pub open spec fn row_attr_colors(row: Seq<Option<LayerV>>, area: int) -> Seq<Color>
    decreases row.len(),
{
    if row.len() == 0 {
        Seq::empty()
    } else {
        row_attr_colors(row.drop_last(), area) + (match row.last() {
            Some(v) => layer_v_attr_colors(v, area),
            None => Seq::empty(),
        })
    }
}

/// The index buffer a whole chunk serializes to: rows concatenated in
/// depth-major, then slot-major order, fixing the painter's draw order.
pub open spec fn chunk_attr_indices(layers: Seq<Seq<Option<LayerV>>>, area: int) -> Seq<usize>
    decreases layers.len(),
{
    if layers.len() == 0 {
        Seq::empty()
    } else {
        chunk_attr_indices(layers.drop_last(), area) + row_attr_indices(layers.last(), area)
    }
}

/// The color buffer a whole chunk serializes to.
pub open spec fn chunk_attr_colors(layers: Seq<Seq<Option<LayerV>>>, area: int) -> Seq<Color>
    decreases layers.len(),
{
    if layers.len() == 0 {
        Seq::empty()
    } else {
        chunk_attr_colors(layers.drop_last(), area) + row_attr_colors(layers.last(), area)
    }
}

/// A chunk which holds all the tiles to be rendered at one chunk coordinate.
#[derive(Clone, Debug)]
pub struct Chunk {
    /// The chunk-space coordinate of the chunk.
    pub point: Point2,
    /// The sprite layers of the chunk, indexed by depth, then layer slot.
    pub z_layers: Vec<Vec<Option<SpriteLayer>>>,
    /// Render-mesh handle the external renderer associated with this chunk.
    pub mesh: Option<u64>,
    /// Entity handle the external consumer associated with this chunk.
    pub entity: Option<u64>,
}

/// What reading a cell of a chunk returns: the addressed layer's answer, or
/// nothing when the depth, the slot, or the layer itself is missing.
pub open spec fn chunk_get(c: Chunk, index: usize, sprite_order: int, z_depth: int) -> Option<
    RawTile,
> {
    if 0 <= z_depth < c.depth_count() && 0 <= sprite_order < c.row_len(z_depth) {
        match c.slot_view(z_depth, sprite_order) {
            Some(v) => layer_v_get(v, index),
            None => None,
        }
    } else {
        None
    }
}

impl Chunk {
    /// The number of depth levels.
    pub open spec fn depth_count(self) -> int {
        self.z_layers@.len() as int
    }

    /// The number of layer slots at depth `d`.
    pub open spec fn row_len(self, d: int) -> int {
        self.z_layers@[d]@.len() as int
    }

    /// The contents of the slot at depth `d`, slot `s`, as a layer view.
    pub open spec fn slot_view(self, d: int, s: int) -> Option<LayerV> {
        match self.z_layers@[d]@[s] {
            Some(l) => Some(l@),
            None => None,
        }
    }

    /// Representation invariant: every materialized layer satisfies its
    /// backend's representation invariant.
    pub open spec fn rep_wf(self) -> bool {
        forall|d: int, s: int|
            0 <= d < self.depth_count() && 0 <= s < self.row_len(d) ==> match (
            #[trigger] self.z_layers@[d]@[s]) {
                Some(l) => l.rep_wf(),
                None => true,
            }
    }

    /// A newly constructed chunk from a point, the layer-kind table, and the
    /// chunk dimensions: one slot row per depth level, and a fresh layer in
    /// every slot the table configures.
    pub fn new(point: Point2, sprite_layers: &Vec<Option<LayerKind>>, dimensions: Dimension3) -> (c:
        Chunk)
        requires
            dimensions.width as int * dimensions.height as int <= usize::MAX,
        ensures
            c.point == point,
            c.mesh is None,
            c.entity is None,
            c.depth_count() == dimensions.depth as int,
            forall|d: int| 0 <= d < c.depth_count() ==> c.row_len(d) == sprite_layers@.len(),
            forall|d: int, s: int|
                0 <= d < c.depth_count() && 0 <= s < sprite_layers@.len()
                    ==> #[trigger] c.slot_view(d, s) == match sprite_layers@[s] {
                    Some(k) => Some(
                        empty_layer_v(
                            k,
                            dimensions.width as int * dimensions.height as int,
                        ),
                    ),
                    None => None,
                },
            c.rep_wf(),
    {
        let area = (dimensions.width as usize) * (dimensions.height as usize);
        let mut z_layers: Vec<Vec<Option<SpriteLayer>>> = Vec::new();
        let mut d: usize = 0;
        while d < dimensions.depth as usize
            invariant
                d <= dimensions.depth as usize,
                z_layers@.len() == d,
                area == dimensions.width as int * dimensions.height as int,
                forall|dd: int|
                    0 <= dd < d ==> (#[trigger] z_layers@[dd])@.len() == sprite_layers@.len(),
                forall|dd: int, s: int|
                    0 <= dd < d && 0 <= s < sprite_layers@.len() ==> (match (
                    #[trigger] z_layers@[dd]@[s]) {
                        Some(l) => Some(l@),
                        None => None,
                    }) == match sprite_layers@[s] {
                        Some(k) => Some(empty_layer_v(k, area as int)),
                        None => None,
                    },
                forall|dd: int, s: int|
                    0 <= dd < d && 0 <= s < sprite_layers@.len() ==> match (
                    #[trigger] z_layers@[dd]@[s]) {
                        Some(l) => l.rep_wf(),
                        None => true,
                    },
            decreases dimensions.depth - d,
        {
            let mut row: Vec<Option<SpriteLayer>> = Vec::new();
            let mut s: usize = 0;
            while s < sprite_layers.len()
                invariant
                    s <= sprite_layers@.len(),
                    row@.len() == s,
                    area == dimensions.width as int * dimensions.height as int,
                    forall|ss: int|
                        0 <= ss < s ==> (match (#[trigger] row@[ss]) {
                            Some(l) => Some(l@),
                            None => None,
                        }) == match sprite_layers@[ss] {
                            Some(k) => Some(empty_layer_v(k, area as int)),
                            None => None,
                        },
                    forall|ss: int|
                        0 <= ss < s ==> match (#[trigger] row@[ss]) {
                            Some(l) => l.rep_wf(),
                            None => true,
                        },
                decreases sprite_layers@.len() - s,
            {
                match &sprite_layers[s] {
                    Some(kind) => {
                        row.push(Some(SpriteLayer::new(*kind, area)));
                    },
                    None => {
                        row.push(None);
                    },
                }
                s += 1;
            }
            z_layers.push(row);
            d += 1;
        }
        Chunk { point, z_layers, mesh: None, entity: None }
    }

    /// Adds a layer of the given kind at a layer slot, for every depth level
    /// within the chunk dimensions.  A slot that already holds a layer is
    /// left untouched: the first layer present wins.
    pub fn add_sprite_layer(&mut self, kind: &LayerKind, sprite_order: usize, dimensions: Dimension3)
        requires
            old(self).rep_wf(),
            dimensions.width as int * dimensions.height as int <= usize::MAX,
        ensures
            final(self).rep_wf(),
            final(self).point == old(self).point,
            final(self).mesh == old(self).mesh,
            final(self).entity == old(self).entity,
            final(self).depth_count() == old(self).depth_count(),
            forall|d: int|
                0 <= d < old(self).depth_count() ==> final(self).row_len(d) == old(self).row_len(d),
            forall|d: int, s: int|
                0 <= d < old(self).depth_count() && 0 <= s < old(self).row_len(d) && s
                    != sprite_order ==> #[trigger] final(self).z_layers@[d]@[s]
                    == old(self).z_layers@[d]@[s],
            forall|d: int|
                0 <= d < old(self).depth_count() && sprite_order < old(self).row_len(d)
                    ==> #[trigger] final(self).slot_view(d, sprite_order as int) == (
                if d < dimensions.depth as int && old(self).slot_view(d, sprite_order as int) is None {
                    Some(
                        empty_layer_v(
                            *kind,
                            dimensions.width as int * dimensions.height as int,
                        ),
                    )
                } else {
                    old(self).slot_view(d, sprite_order as int)
                }),
    {
        let area = (dimensions.width as usize) * (dimensions.height as usize);
        let mut d: usize = 0;
        while d < dimensions.depth as usize
            invariant
                d <= dimensions.depth as usize,
                area == dimensions.width as int * dimensions.height as int,
                self.point == old(self).point,
                self.mesh == old(self).mesh,
                self.entity == old(self).entity,
                self.depth_count() == old(self).depth_count(),
                self.rep_wf(),
                forall|dd: int|
                    0 <= dd < old(self).depth_count() ==> self.row_len(dd) == old(self).row_len(dd),
                forall|dd: int, s: int|
                    0 <= dd < old(self).depth_count() && 0 <= s < old(self).row_len(dd) && s
                        != sprite_order ==> #[trigger] self.z_layers@[dd]@[s]
                        == old(self).z_layers@[dd]@[s],
                forall|dd: int|
                    0 <= dd < old(self).depth_count() && sprite_order < old(self).row_len(dd)
                        ==> #[trigger] self.slot_view(dd, sprite_order as int) == (
                    if dd < d && old(self).slot_view(dd, sprite_order as int) is None {
                        Some(empty_layer_v(*kind, area as int))
                    } else {
                        old(self).slot_view(dd, sprite_order as int)
                    }),
            decreases dimensions.depth - d,
        {
            let ghost pre_self = *self;
            if d < self.z_layers.len() {
                let mut row = self.z_layers.remove(d);
                if sprite_order < row.len() {
                    if row[sprite_order].is_none() {
                        row.set(sprite_order, Some(SpriteLayer::new(*kind, area)));
                    }
                }
                self.z_layers.insert(d, row);
                proof {
                    assert(self.z_layers@ =~= pre_self.z_layers@.update(
                        d as int,
                        self.z_layers@[d as int],
                    ));
                    if sprite_order < pre_self.row_len(d as int) {
                        assert(pre_self.slot_view(d as int, sprite_order as int) == old(
                            self,
                        ).slot_view(d as int, sprite_order as int));
                    }
                }
            }
            proof {
                assert forall|dd: int|
                    0 <= dd < old(self).depth_count() && sprite_order < old(self).row_len(dd)
                    implies #[trigger] self.slot_view(dd, sprite_order as int) == (
                if dd <= d && old(self).slot_view(dd, sprite_order as int) is None {
                    Some(empty_layer_v(*kind, area as int))
                } else {
                    old(self).slot_view(dd, sprite_order as int)
                }) by {
                    assert(pre_self.slot_view(dd, sprite_order as int) == (
                    if dd < d && old(self).slot_view(dd, sprite_order as int) is None {
                        Some(empty_layer_v(*kind, area as int))
                    } else {
                        old(self).slot_view(dd, sprite_order as int)
                    }));
                    if dd != d {
                        assert(self.z_layers@[dd] == pre_self.z_layers@[dd]);
                        assert(self.slot_view(dd, sprite_order as int) == pre_self.slot_view(
                            dd,
                            sprite_order as int,
                        ));
                    }
                }
            }
            d += 1;
        }
    }

    /// Returns the point of the location of the chunk.
    pub fn point(&self) -> (p: Point2)
        ensures
            p == self.point,
    {
        self.point
    }

    /// Moves a layer from one slot to another, depth level by depth level.
    /// A depth level whose destination slot is already occupied, or whose row
    /// one of the slots does not reach, is left untouched.
    pub fn move_sprite_layer(&mut self, from_layer_z: usize, to_layer_z: usize)
        requires
            old(self).rep_wf(),
        ensures
            final(self).rep_wf(),
            final(self).point == old(self).point,
            final(self).mesh == old(self).mesh,
            final(self).entity == old(self).entity,
            final(self).depth_count() == old(self).depth_count(),
            forall|d: int|
                0 <= d < old(self).depth_count() ==> #[trigger] final(self).z_layers@[d]@ == (
                if from_layer_z < old(self).row_len(d) && to_layer_z < old(self).row_len(d) && old(
                    self,
                ).z_layers@[d]@[to_layer_z as int] is None {
                    old(self).z_layers@[d]@.update(
                        to_layer_z as int,
                        old(self).z_layers@[d]@[from_layer_z as int],
                    ).update(from_layer_z as int, None)
                } else {
                    old(self).z_layers@[d]@
                }),
    {
        let depth = self.z_layers.len();
        let mut d: usize = 0;
        while d < depth
            invariant
                d <= depth,
                depth == old(self).depth_count(),
                self.point == old(self).point,
                self.mesh == old(self).mesh,
                self.entity == old(self).entity,
                self.depth_count() == old(self).depth_count(),
                self.rep_wf(),
                forall|dd: int|
                    d <= dd < old(self).depth_count() ==> #[trigger] self.z_layers@[dd]
                        == old(self).z_layers@[dd],
                forall|dd: int|
                    0 <= dd < d ==> #[trigger] self.z_layers@[dd]@ == (
                    if from_layer_z < old(self).row_len(dd) && to_layer_z < old(self).row_len(dd)
                        && old(self).z_layers@[dd]@[to_layer_z as int] is None {
                        old(self).z_layers@[dd]@.update(
                            to_layer_z as int,
                            old(self).z_layers@[dd]@[from_layer_z as int],
                        ).update(from_layer_z as int, None)
                    } else {
                        old(self).z_layers@[dd]@
                    }),
            decreases depth - d,
        {
            let ghost pre = self.z_layers@;
            let mut row = self.z_layers.remove(d);
            let ghost row0 = row@;
            if from_layer_z < row.len() && to_layer_z < row.len() {
                if row[to_layer_z].is_none() {
                    let val = row.remove(from_layer_z);
                    row.insert(from_layer_z, None);
                    proof {
                        assert(row@ =~= row0.update(from_layer_z as int, None));
                    }
                    row.set(to_layer_z, val);
                    proof {
                        assert(row@ =~= row0.update(to_layer_z as int, row0[from_layer_z as int])
                            .update(from_layer_z as int, None));
                    }
                }
            }
            self.z_layers.insert(d, row);
            proof {
                assert(self.z_layers@ =~= pre.update(d as int, self.z_layers@[d as int]));
            }
            d += 1;
        }
    }

    /// Removes the layer slot at `sprite_layer` for every depth level,
    /// shifting higher slots down.  Destructive: the removed layers' tiles
    /// are not recoverable.
    pub fn remove_sprite_layer(&mut self, sprite_layer: usize)
        requires
            old(self).rep_wf(),
        ensures
            final(self).rep_wf(),
            final(self).point == old(self).point,
            final(self).mesh == old(self).mesh,
            final(self).entity == old(self).entity,
            final(self).depth_count() == old(self).depth_count(),
            forall|d: int|
                0 <= d < old(self).depth_count() ==> #[trigger] final(self).z_layers@[d]@ == (
                if sprite_layer < old(self).row_len(d) {
                    old(self).z_layers@[d]@.remove(sprite_layer as int)
                } else {
                    old(self).z_layers@[d]@
                }),
    {
        let depth = self.z_layers.len();
        let mut d: usize = 0;
        while d < depth
            invariant
                d <= depth,
                depth == old(self).depth_count(),
                self.point == old(self).point,
                self.mesh == old(self).mesh,
                self.entity == old(self).entity,
                self.depth_count() == old(self).depth_count(),
                self.rep_wf(),
                forall|dd: int|
                    d <= dd < old(self).depth_count() ==> #[trigger] self.z_layers@[dd]
                        == old(self).z_layers@[dd],
                forall|dd: int|
                    0 <= dd < d ==> #[trigger] self.z_layers@[dd]@ == (
                    if sprite_layer < old(self).row_len(dd) {
                        old(self).z_layers@[dd]@.remove(sprite_layer as int)
                    } else {
                        old(self).z_layers@[dd]@
                    }),
            decreases depth - d,
        {
            let ghost pre = self.z_layers@;
            let mut row = self.z_layers.remove(d);
            if sprite_layer < row.len() {
                row.remove(sprite_layer);
            }
            self.z_layers.insert(d, row);
            proof {
                assert(self.z_layers@ =~= pre.update(d as int, self.z_layers@[d as int]));
            }
            d += 1;
        }
    }

    /// Removes the layer at the slot for every depth level, leaving the slot
    /// empty but in place.  Destructive: the removed layers' tiles are not
    /// recoverable.
    pub fn remove_layer(&mut self, sprite_order: usize)
        requires
            old(self).rep_wf(),
        ensures
            final(self).rep_wf(),
            final(self).point == old(self).point,
            final(self).mesh == old(self).mesh,
            final(self).entity == old(self).entity,
            final(self).depth_count() == old(self).depth_count(),
            forall|d: int|
                0 <= d < old(self).depth_count() ==> final(self).row_len(d) == old(self).row_len(d),
            forall|d: int, s: int|
                0 <= d < old(self).depth_count() && 0 <= s < old(self).row_len(d) && s
                    != sprite_order ==> #[trigger] final(self).z_layers@[d]@[s]
                    == old(self).z_layers@[d]@[s],
            forall|d: int|
                0 <= d < old(self).depth_count() && sprite_order < old(self).row_len(d)
                    ==> #[trigger] final(self).z_layers@[d]@[sprite_order as int] is None,
    {
        let depth = self.z_layers.len();
        let mut d: usize = 0;
        while d < depth
            invariant
                d <= depth,
                depth == old(self).depth_count(),
                self.point == old(self).point,
                self.mesh == old(self).mesh,
                self.entity == old(self).entity,
                self.depth_count() == old(self).depth_count(),
                self.rep_wf(),
                forall|dd: int|
                    0 <= dd < old(self).depth_count() ==> self.row_len(dd) == old(self).row_len(dd),
                forall|dd: int, s: int|
                    0 <= dd < old(self).depth_count() && 0 <= s < old(self).row_len(dd) && s
                        != sprite_order ==> #[trigger] self.z_layers@[dd]@[s]
                        == old(self).z_layers@[dd]@[s],
                forall|dd: int|
                    0 <= dd < d && sprite_order < old(self).row_len(dd)
                        ==> #[trigger] self.z_layers@[dd]@[sprite_order as int] is None,
                forall|dd: int|
                    d <= dd < old(self).depth_count() ==> #[trigger] self.z_layers@[dd]
                        == old(self).z_layers@[dd],
            decreases depth - d,
        {
            let ghost pre = self.z_layers@;
            let mut row = self.z_layers.remove(d);
            if sprite_order < row.len() {
                row.set(sprite_order, None);
            }
            self.z_layers.insert(d, row);
            proof {
                assert(self.z_layers@ =~= pre.update(d as int, self.z_layers@[d as int]));
            }
            d += 1;
        }
    }

    /// Sets the render-mesh handle for the chunk to use.
    pub fn set_mesh(&mut self, mesh: u64)
        ensures
            *final(self) == (Chunk { mesh: Some(mesh), ..*old(self) }),
    {
        self.mesh = Some(mesh);
    }

    /// Returns the chunk's render-mesh handle, if one was set.
    pub fn mesh(&self) -> (m: Option<u64>)
        ensures
            m == self.mesh,
    {
        self.mesh
    }

    /// Takes the render-mesh handle, leaving none.
    pub fn take_mesh(&mut self) -> (m: Option<u64>)
        ensures
            m == old(self).mesh,
            *final(self) == (Chunk { mesh: None, ..*old(self) }),
    {
        self.mesh.take()
    }

    /// Adds an entity handle to the chunk, set when it is spawned.
    pub fn set_entity(&mut self, entity: u64)
        ensures
            *final(self) == (Chunk { entity: Some(entity), ..*old(self) }),
    {
        self.entity = Some(entity);
    }

    /// Gets the entity handle of the chunk, if one was set.
    pub fn get_entity(&self) -> (e: Option<u64>)
        ensures
            e == self.entity,
    {
        self.entity
    }

    /// Takes the entity handle, leaving none.  Useful for despawning.
    pub fn take_entity(&mut self) -> (e: Option<u64>)
        ensures
            e == old(self).entity,
            *final(self) == (Chunk { entity: None, ..*old(self) }),
    {
        self.entity.take()
    }

    /// The entity handles currently attached to the chunk.
    pub fn get_entities(&self) -> (es: Vec<u64>)
        ensures
            self.entity is Some ==> es@ == seq![self.entity->0],
            self.entity is None ==> es@ == Seq::<u64>::empty(),
    {
        let mut es: Vec<u64> = Vec::new();
        if let Some(e) = self.entity {
            es.push(e);
        }
        es
    }

    /// Sets a single raw tile at a cell of the layer at the given depth and
    /// layer slot.  A missing depth, slot, or layer is a non-fatal no-op.
    pub fn set_tile(&mut self, index: usize, z: usize, sprite_order: usize, tile: RawTile)
        requires
            old(self).rep_wf(),
        ensures
            final(self).rep_wf(),
            final(self).point == old(self).point,
            final(self).mesh == old(self).mesh,
            final(self).entity == old(self).entity,
            final(self).depth_count() == old(self).depth_count(),
            forall|d: int|
                0 <= d < old(self).depth_count() && d != z ==> #[trigger] final(self).z_layers@[d]
                    == old(self).z_layers@[d],
            z < old(self).depth_count() ==> {
                &&& final(self).row_len(z as int) == old(self).row_len(z as int)
                &&& forall|s: int|
                    0 <= s < old(self).row_len(z as int) && s != sprite_order
                        ==> #[trigger] final(self).z_layers@[z as int]@[s]
                        == old(self).z_layers@[z as int]@[s]
                &&& sprite_order < old(self).row_len(z as int) ==> final(self).slot_view(
                    z as int,
                    sprite_order as int,
                ) == match old(self).slot_view(z as int, sprite_order as int) {
                    Some(v) => Some(layer_v_set(v, index, tile)),
                    None => None,
                }
            },
            z >= old(self).depth_count() ==> final(self).z_layers == old(self).z_layers,
    {
        if z < self.z_layers.len() {
            let mut row = self.z_layers.remove(z);
            if sprite_order < row.len() {
                let slot = row.remove(sprite_order);
                match slot {
                    Some(mut layer) => {
                        layer.set_tile(index, tile);
                        row.insert(sprite_order, Some(layer));
                    },
                    None => {
                        row.insert(sprite_order, None);
                    },
                }
                proof {
                    assert(row@ =~= old(self).z_layers@[z as int]@.update(
                        sprite_order as int,
                        row@[sprite_order as int],
                    ));
                }
            }
            self.z_layers.insert(z, row);
            proof {
                assert(self.z_layers@ =~= old(self).z_layers@.update(
                    z as int,
                    self.z_layers@[z as int],
                ));
            }
        }
    }

    /// Removes a tile from a cell of the layer at the given slot and depth:
    /// the backend's own delete.  A missing depth, slot, or layer is a
    /// non-fatal no-op.
    pub fn remove_tile(&mut self, index: usize, sprite_layer: usize, z_depth: usize)
        requires
            old(self).rep_wf(),
        ensures
            final(self).rep_wf(),
            final(self).point == old(self).point,
            final(self).mesh == old(self).mesh,
            final(self).entity == old(self).entity,
            final(self).depth_count() == old(self).depth_count(),
            forall|d: int|
                0 <= d < old(self).depth_count() && d != z_depth
                    ==> #[trigger] final(self).z_layers@[d] == old(self).z_layers@[d],
            z_depth < old(self).depth_count() ==> {
                &&& final(self).row_len(z_depth as int) == old(self).row_len(z_depth as int)
                &&& forall|s: int|
                    0 <= s < old(self).row_len(z_depth as int) && s != sprite_layer
                        ==> #[trigger] final(self).z_layers@[z_depth as int]@[s]
                        == old(self).z_layers@[z_depth as int]@[s]
                &&& sprite_layer < old(self).row_len(z_depth as int) ==> final(self).slot_view(
                    z_depth as int,
                    sprite_layer as int,
                ) == match old(self).slot_view(z_depth as int, sprite_layer as int) {
                    Some(v) => Some(layer_v_remove(v, index)),
                    None => None,
                }
            },
            z_depth >= old(self).depth_count() ==> final(self).z_layers == old(self).z_layers,
    {
        if z_depth < self.z_layers.len() {
            let mut row = self.z_layers.remove(z_depth);
            if sprite_layer < row.len() {
                let slot = row.remove(sprite_layer);
                match slot {
                    Some(mut layer) => {
                        layer.remove_tile(index);
                        row.insert(sprite_layer, Some(layer));
                    },
                    None => {
                        row.insert(sprite_layer, None);
                    },
                }
                proof {
                    assert(row@ =~= old(self).z_layers@[z_depth as int]@.update(
                        sprite_layer as int,
                        row@[sprite_layer as int],
                    ));
                }
            }
            self.z_layers.insert(z_depth, row);
            proof {
                assert(self.z_layers@ =~= old(self).z_layers@.update(
                    z_depth as int,
                    self.z_layers@[z_depth as int],
                ));
            }
        }
    }

    /// Gets the tile at a cell of the layer at the given slot and depth, or
    /// nothing when the depth, the slot, or the layer is missing.
    pub fn get_tile(&self, index: usize, sprite_order: usize, z_depth: usize) -> (r: Option<
        RawTile,
    >)
        requires
            self.rep_wf(),
        ensures
            r == chunk_get(*self, index, sprite_order as int, z_depth as int),
    {
        if z_depth < self.z_layers.len() {
            if sprite_order < self.z_layers[z_depth].len() {
                match &self.z_layers[z_depth][sprite_order] {
                    Some(layer) => layer.get_tile(index),
                    None => None,
                }
            } else {
                None
            }
        } else {
            None
        }
    }

    /// Clears every present layer at the given depth level of all sprites.
    pub fn clear_layer(&mut self, layer: usize)
        requires
            old(self).rep_wf(),
        ensures
            final(self).rep_wf(),
            final(self).point == old(self).point,
            final(self).mesh == old(self).mesh,
            final(self).entity == old(self).entity,
            final(self).depth_count() == old(self).depth_count(),
            forall|d: int|
                0 <= d < old(self).depth_count() && d != layer
                    ==> #[trigger] final(self).z_layers@[d] == old(self).z_layers@[d],
            layer < old(self).depth_count() ==> {
                &&& final(self).row_len(layer as int) == old(self).row_len(layer as int)
                &&& forall|s: int|
                    0 <= s < old(self).row_len(layer as int) ==> #[trigger] final(self).slot_view(
                        layer as int,
                        s,
                    ) == match old(self).slot_view(layer as int, s) {
                        Some(v) => Some(layer_v_clear(v)),
                        None => None,
                    }
            },
            layer >= old(self).depth_count() ==> final(self).z_layers == old(self).z_layers,
    {
        if layer < self.z_layers.len() {
            let mut row = self.z_layers.remove(layer);
            let ghost row0 = row@;
            let mut s: usize = 0;
            while s < row.len()
                invariant
                    s <= row@.len(),
                    row@.len() == row0.len(),
                    forall|ss: int| s <= ss < row0.len() ==> #[trigger] row@[ss] == row0[ss],
                    forall|ss: int|
                        0 <= ss < s ==> (match (#[trigger] row@[ss]) {
                            Some(l) => Some(l@),
                            None => None,
                        }) == match (match row0[ss] {
                            Some(l) => Some(l@),
                            None => None,
                        }) {
                            Some(v) => Some(layer_v_clear(v)),
                            None => None,
                        },
                    forall|ss: int|
                        0 <= ss < row0.len() ==> match (#[trigger] row0[ss]) {
                            Some(l) => l.rep_wf(),
                            None => true,
                        },
                    forall|ss: int|
                        0 <= ss < row@.len() ==> match (#[trigger] row@[ss]) {
                            Some(l) => l.rep_wf(),
                            None => true,
                        },
                decreases row@.len() - s,
            {
                let slot = row.remove(s);
                match slot {
                    Some(mut l) => {
                        l.clear();
                        row.insert(s, Some(l));
                    },
                    None => {
                        row.insert(s, None);
                    },
                }
                s += 1;
            }
            self.z_layers.insert(layer, row);
            proof {
                assert(self.z_layers@ =~= old(self).z_layers@.update(
                    layer as int,
                    self.z_layers@[layer as int],
                ));
            }
        }
    }

    /// Serializes every present layer into attribute buffers, concatenated
    /// across all depths in depth-major, then slot-major order, which fixes
    /// the painter's draw order: lower depths render first.
    pub fn tiles_to_renderer_parts(&self, dimensions: Dimension3) -> (r: (Vec<usize>, Vec<Color>))
        requires
            self.rep_wf(),
            4 * (dimensions.width as int * dimensions.height as int) <= usize::MAX,
        ensures
            r.0@ == chunk_attr_indices(
                self.layers_view(),
                dimensions.width as int * dimensions.height as int,
            ),
            r.1@ == chunk_attr_colors(
                self.layers_view(),
                dimensions.width as int * dimensions.height as int,
            ),
    {
        let area = (dimensions.width as usize) * (dimensions.height as usize);
        let mut tile_indices: Vec<usize> = Vec::new();
        let mut tile_colors: Vec<Color> = Vec::new();
        let ghost lv = self.layers_view();
        let mut d: usize = 0;
        while d < self.z_layers.len()
            invariant
                d <= lv.len(),
                self.rep_wf(),
                lv == self.layers_view(),
                4 * (area as int) <= usize::MAX,
                area == dimensions.width as int * dimensions.height as int,
                tile_indices@ == chunk_attr_indices(lv.take(d as int), area as int),
                tile_colors@ == chunk_attr_colors(lv.take(d as int), area as int),
            decreases lv.len() - d,
        {
            let ghost row_v = lv[d as int];
            let mut s: usize = 0;
            while s < self.z_layers[d].len()
                invariant
                    d < lv.len(),
                    s <= row_v.len(),
                    self.rep_wf(),
                    lv == self.layers_view(),
                    row_v == lv[d as int],
                    4 * (area as int) <= usize::MAX,
                    area == dimensions.width as int * dimensions.height as int,
                    tile_indices@ == chunk_attr_indices(lv.take(d as int), area as int)
                        + row_attr_indices(row_v.take(s as int), area as int),
                    tile_colors@ == chunk_attr_colors(lv.take(d as int), area as int)
                        + row_attr_colors(row_v.take(s as int), area as int),
                decreases row_v.len() - s,
            {
                match &self.z_layers[d][s] {
                    Some(layer) => {
                        let (mut li, mut lc) = layer.tiles_to_attributes(area);
                        tile_indices.append(&mut li);
                        tile_colors.append(&mut lc);
                    },
                    None => {},
                }
                proof {
                    assert(row_v.take(s + 1).drop_last() =~= row_v.take(s as int));
                    assert(row_v.take(s + 1).last() == row_v[s as int]);
                }
                s += 1;
            }
            proof {
                assert(row_v.take(row_v.len() as int) =~= row_v);
                assert(lv.take(d + 1).drop_last() =~= lv.take(d as int));
                assert(lv.take(d + 1).last() == lv[d as int]);
            }
            d += 1;
        }
        proof {
            assert(lv.take(lv.len() as int) =~= lv);
        }
        (tile_indices, tile_colors)
    }

    /// The whole layer grid as views: one sequence of optional layer views
    /// per depth level.
    pub open spec fn layers_view(self) -> Seq<Seq<Option<LayerV>>> {
        Seq::new(
            self.z_layers@.len(),
            |d: int|
                Seq::new(
                    self.z_layers@[d]@.len(),
                    |s: int|
                        match self.z_layers@[d]@[s] {
                            Some(l) => Some(l@),
                            None => None,
                        },
                ),
        )
    }
}

} // verus!
