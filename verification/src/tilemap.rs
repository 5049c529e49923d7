//! The tilemap: the sparse chunk world and its orchestration.
//!
//! A tilemap owns every chunk, keyed by chunk-space coordinate, together with
//! the authoritative layer table, the bounds and spawn bookkeeping, and the
//! outgoing event queue.  Batched edits are validated, routed to their
//! destination chunks, and reported through one consolidated event per batch.

use crate::assoc::{
    assoc_map, assoc_unique, lemma_assoc_map_dom, lemma_assoc_map_get, lemma_assoc_map_push,
    lemma_assoc_map_remove, lemma_assoc_map_update, lemma_assoc_same_keys,
};
use crate::chunk::{chunk_get, Chunk};
use crate::coord::{
    chunk_coord, lemma_chunk_coord_fits, lemma_decomposition_injective, linear_index, local_coord,
    point_in_dimension2, point_to_chunk_point, point_to_local_point, Dimension2, Dimension3,
    DimensionError, Point2,
};
use vstd::arithmetic::div_mod::lemma_mod_bound;
use crate::layer::{
    empty_layer_v, layer_v_get, layer_v_set, lemma_empty_layer_get, LayerKind, LayerV,
};
use crate::tile::{zero_color, Color, RawTile, Tile};
use vstd::prelude::*;

verus! {

/// The kinds of errors that can occur.
#[derive(Clone, Copy, Eq, PartialEq, Hash, Debug, Structural)]
pub enum ErrorKind {
    /// A coordinate or index is out of bounds.
    DimensionError(DimensionError),
    /// A layer already exists at the slot.
    LayerExists(usize),
    /// No layer exists at the slot.
    LayerDoesNotExist(usize),
    /// The texture atlas was not set.
    MissingTextureAtlas,
    /// The tile dimensions were not set.
    MissingTileDimensions,
    /// The chunk does not exist.
    MissingChunk,
    /// The chunk already exists.
    ChunkAlreadyExists(Point2),
}

impl ErrorKind {
    /// A short description of the error, for reporting to a user.
    pub fn describe(&self) -> &'static str {
        match self {
            ErrorKind::DimensionError(_) => "the coordinate or index is out of bounds",
            ErrorKind::LayerExists(_) => "the layer already exists, try `remove_layer` or `move_layer` first",
            ErrorKind::LayerDoesNotExist(_) => "the layer does not exist, try `add_layer` first",
            ErrorKind::MissingTextureAtlas => "texture atlas is missing, must use `TilemapBuilder::texture_atlas`",
            ErrorKind::MissingTileDimensions => "tile dimensions are missing, it is required to set it",
            ErrorKind::MissingChunk => "the chunk does not exist, try `insert_chunk` first",
            ErrorKind::ChunkAlreadyExists(_) => "the chunk already exists, if this was intentional run `remove_chunk` first",
        }
    }
}

/// The error type for operations when interacting with the tilemap.
#[derive(Clone, Copy, Eq, PartialEq, Hash, Debug, Structural)]
pub struct TilemapError(pub ErrorKind);

impl TilemapError {
    /// A short description of the error, for reporting to a user.
    pub fn describe(&self) -> &'static str {
        self.0.describe()
    }
}

impl From<ErrorKind> for TilemapError {
    /// Wraps the error kind.
    fn from(kind: ErrorKind) -> (e: TilemapError)
        ensures
            e == TilemapError(kind),
    {
        TilemapError(kind)
    }
}

impl vstd::std_specs::convert::FromSpecImpl<ErrorKind> for TilemapError {
    open spec fn obeys_from_spec() -> bool {
        true
    }

    open spec fn from_spec(kind: ErrorKind) -> TilemapError {
        TilemapError(kind)
    }
}

impl From<DimensionError> for TilemapError {
    /// Wraps the dimension error.
    fn from(err: DimensionError) -> (e: TilemapError)
        ensures
            e == TilemapError(ErrorKind::DimensionError(err)),
    {
        TilemapError(ErrorKind::DimensionError(err))
    }
}

impl vstd::std_specs::convert::FromSpecImpl<DimensionError> for TilemapError {
    open spec fn obeys_from_spec() -> bool {
        true
    }

    open spec fn from_spec(err: DimensionError) -> TilemapError {
        TilemapError(ErrorKind::DimensionError(err))
    }
}

/// A map result.
pub type TilemapResult<T> = Result<T, TilemapError>;

/// The shape of the grid the tilemap's coordinate math serves.
#[derive(Clone, Copy, Eq, PartialEq, Hash, Debug, Structural)]
pub enum GridTopology {
    /// An ordinary square grid.
    Square,
    /// Hexagons with a flat top, offset along the horizontal axis.
    HexX,
    /// Hexagons with a pointy top, offset along the vertical axis.
    HexY,
    /// Hexagons in rows, even rows offset.
    HexEvenRows,
    /// Hexagons in rows, odd rows offset.
    HexOddRows,
    /// Hexagons in columns, even columns offset.
    HexEvenCols,
    /// Hexagons in columns, odd columns offset.
    HexOddCols,
}

/// A layer configuration for a tilemap.
#[derive(Clone, Copy, Eq, PartialEq, Hash, Debug, Structural)]
pub struct TilemapLayer {
    /// The kind of layer to create.
    pub kind: LayerKind,
}

impl Default for TilemapLayer {
    /// A dense layer, the kind auto-configuration materializes.
    fn default() -> (l: TilemapLayer)
        ensures
            l == (TilemapLayer { kind: LayerKind::Dense }),
    {
        TilemapLayer { kind: LayerKind::Dense }
    }
}

/// A lifecycle or change event of the tilemap, consumed by the external
/// renderer once per tick.
#[derive(Clone, Debug)]
pub enum TilemapChunkEvent {
    /// A chunk was asked to spawn: the consumer should materialize it.
    Spawned {
        /// The chunk-space coordinate of the chunk.
        point: Point2,
    },
    /// A chunk was despawned: the consumer should clean up what it created.
    Despawned {
        /// The chunk-space coordinate of the chunk.
        point: Point2,
        /// The entity handles that were attached to the chunk.
        entities: Vec<u64>,
    },
    /// Tiles changed: one event per batch, naming each affected z-order with
    /// the destination chunk's entity handle, when one was set.
    Modified {
        /// The affected z-orders, each with an optional entity handle.
        layers: Vec<(usize, Option<u64>)>,
    },
}

/// The default chunk dimensions, in tiles.
pub const DEFAULT_CHUNK_WIDTH: u32 = 32;

/// The default chunk dimensions, in tiles.
pub const DEFAULT_CHUNK_HEIGHT: u32 = 32;

/// The default tile dimensions, in pixels.
pub const DEFAULT_TILE_WIDTH: u32 = 32;

/// The default tile dimensions, in pixels.
pub const DEFAULT_TILE_HEIGHT: u32 = 32;

/// The default number of z-order layers.
pub const DEFAULT_Z_LAYERS: usize = 5;

/// The widest chunk side the tilemap accepts, in tiles.  It keeps every
/// attribute buffer length within `usize` on every target.
pub const MAX_CHUNK_SIDE: u32 = 16384;

/// A tilemap which maintains chunks and its tiles within.
///
/// Fields are public for inspection and tests; mutate through the methods,
/// which keep the layer table and every chunk's layer grid in step.
#[derive(Clone, Debug)]
pub struct Tilemap {
    /// The type of grid to use.
    pub topology: GridTopology,
    /// The tilemap's dimensions in chunks, if bounded.
    pub dimensions: Option<Dimension2>,
    /// A chunk's dimensions in tiles.
    pub chunk_dimensions: Dimension2,
    /// A tile's dimensions in pixels.
    pub tile_dimensions: Dimension2,
    /// The authoritative layer table, from lowest to highest z-order.
    pub layers: Vec<Option<TilemapLayer>>,
    /// Whether missing chunks are created on demand during edits.
    pub auto_chunk: bool,
    /// Dimensions of chunks to spawn around a camera, for external systems.
    pub auto_spawn: Option<Dimension2>,
    /// The handle of the texture atlas.
    pub texture_atlas: u64,
    /// Every chunk, keyed by its chunk-space coordinate.
    pub chunks: Vec<(Point2, Chunk)>,
    /// The outgoing events of the tilemap, drained once per tick.
    pub chunk_events: Vec<TilemapChunkEvent>,
    /// The chunk coordinates currently spawned.
    pub spawned: Vec<Point2>,
}

impl Tilemap {
    /// The number of cells of one chunk.
    pub open spec fn area(self) -> int {
        self.chunk_dimensions.width as int * self.chunk_dimensions.height as int
    }

    /// The chunks as a mapping from chunk coordinate to chunk.
    pub open spec fn chunks_map(self) -> Map<Point2, Chunk> {
        assoc_map(self.chunks@)
    }

    /// Whether one chunk entry is consistent with the tilemap: it sits at its
    /// key, has a single depth level, and mirrors the layer table slot for
    /// slot, in presence, kind, and dense capacity.
    pub open spec fn chunk_entry_wf(self, p: Point2, c: Chunk) -> bool {
        &&& c.point == p
        &&& c.rep_wf()
        &&& c.depth_count() == 1
        &&& c.row_len(0) == self.layers@.len()
        &&& forall|s: int|
            0 <= s < self.layers@.len() ==> match (#[trigger] c.slot_view(0, s), self.layers@[s]) {
                (Some(v), Some(tl)) => layer_v_kind(v) == tl.kind && layer_v_covers(v, self.area()),
                (None, None) => true,
                _ => false,
            }
    }

    /// Well-formedness of the whole tilemap: valid chunk dimensions, unique
    /// chunk keys and spawn entries, and every chunk consistent with the
    /// layer table.
    pub open spec fn wf(self) -> bool {
        &&& 1 <= self.chunk_dimensions.width <= MAX_CHUNK_SIDE
        &&& 1 <= self.chunk_dimensions.height <= MAX_CHUNK_SIDE
        &&& assoc_unique(self.chunks@)
        &&& forall|i: int|
            0 <= i < self.chunks@.len() ==> self.chunk_entry_wf(
                (#[trigger] self.chunks@[i]).0,
                self.chunks@[i].1,
            )
        &&& forall|i: int, j: int|
            0 <= i < j < self.spawned@.len() ==> self.spawned@[i] != self.spawned@[j]
    }

    /// The chunk-space coordinate of the chunk owning a global tile point.
    pub open spec fn chunk_point_of(self, p: Point2) -> Point2 {
        Point2 {
            x: chunk_coord(p.x as int, self.chunk_dimensions.width as int) as i32,
            y: chunk_coord(p.y as int, self.chunk_dimensions.height as int) as i32,
        }
    }

    /// The linear in-chunk index of a global tile point.
    pub open spec fn local_index_of(self, p: Point2) -> int {
        linear_index(
            local_coord(p.x as int, self.chunk_dimensions.width as int),
            local_coord(p.y as int, self.chunk_dimensions.height as int),
            self.chunk_dimensions.width as int,
        )
    }

    /// What reading the tile at a global point and z-order returns: the
    /// owning chunk's answer, or nothing when that chunk does not exist.
    pub open spec fn get_tile_spec(self, p: Point2, z_order: int) -> Option<RawTile> {
        let cp = self.chunk_point_of(p);
        if self.chunks_map().dom().contains(cp) {
            chunk_get(self.chunks_map()[cp], self.local_index_of(p) as usize, z_order, 0)
        } else {
            None
        }
    }

    /// Whether the configuration fields agree with `other`'s.
    pub open spec fn same_config(self, other: Tilemap) -> bool {
        &&& self.topology == other.topology
        &&& self.dimensions == other.dimensions
        &&& self.chunk_dimensions == other.chunk_dimensions
        &&& self.tile_dimensions == other.tile_dimensions
        &&& self.auto_chunk == other.auto_chunk
        &&& self.auto_spawn == other.auto_spawn
        &&& self.texture_atlas == other.texture_atlas
    }

    /// The 3D dimensions a chunk of this tilemap is built with: the chunk
    /// sides and a single depth level.
    pub open spec fn chunk_dim3_spec(self) -> Dimension3 {
        Dimension3 {
            width: self.chunk_dimensions.width,
            height: self.chunk_dimensions.height,
            depth: 1,
        }
    }

    /// The chunk area of a well-formed tilemap is small enough that even
    /// the four-wide attribute buffers fit in `usize`.
    pub proof fn lemma_area_bound(self)
        requires
            self.wf(),
        ensures
            1 <= self.area(),
            4 * self.area() <= usize::MAX,
    {
        assert(1 <= self.area() && 4 * self.area() <= 0x4000_0000) by (nonlinear_arith)
            requires
                1 <= self.chunk_dimensions.width as int <= 16384,
                1 <= self.chunk_dimensions.height as int <= 16384,
                self.area() == self.chunk_dimensions.width as int
                    * self.chunk_dimensions.height as int,
        ;
    }

    /// The 3D dimensions a chunk of this tilemap is built with.
    fn chunk_dim3(&self) -> (d: Dimension3)
        ensures
            d == self.chunk_dim3_spec(),
    {
        Dimension3 {
            width: self.chunk_dimensions.width,
            height: self.chunk_dimensions.height,
            depth: 1,
        }
    }

    /// The layer-kind table the chunks are built from: one optional kind per
    /// configured slot.
    fn layer_kinds(&self) -> (r: Vec<Option<LayerKind>>)
        ensures
            r@.len() == self.layers@.len(),
            forall|s: int|
                0 <= s < self.layers@.len() ==> r@[s] == match self.layers@[s] {
                    Some(l) => Some(l.kind),
                    None => None,
                },
    {
        let mut kinds: Vec<Option<LayerKind>> = Vec::new();
        let mut s: usize = 0;
        while s < self.layers.len()
            invariant
                s <= self.layers@.len(),
                kinds@.len() == s,
                forall|ss: int|
                    0 <= ss < s ==> kinds@[ss] == match self.layers@[ss] {
                        Some(l) => Some(l.kind),
                        None => None,
                    },
            decreases self.layers@.len() - s,
        {
            match &self.layers[s] {
                Some(l) => kinds.push(Some(l.kind)),
                None => kinds.push(None),
            }
            s += 1;
        }
        kinds
    }

    /// The position of the chunk entry keyed `point`, if one exists.
    fn find_chunk(&self, point: Point2) -> (r: Option<usize>)
        ensures
            match r {
                Some(j) => j < self.chunks@.len() && (self.chunks@[j as int]).0 == point,
                None => forall|i: int|
                    0 <= i < self.chunks@.len() ==> (#[trigger] self.chunks@[i]).0 != point,
            },
    {
        let mut j: usize = 0;
        while j < self.chunks.len()
            invariant
                j <= self.chunks@.len(),
                forall|i: int| 0 <= i < j ==> (#[trigger] self.chunks@[i]).0 != point,
            decreases self.chunks@.len() - j,
        {
            if self.chunks[j].0 == point {
                return Some(j);
            }
            j += 1;
        }
        None
    }

    /// Whether `point` is in the spawned set.
    fn is_spawned(&self, point: Point2) -> (r: bool)
        ensures
            r == self.spawned@.contains(point),
    {
        let mut j: usize = 0;
        while j < self.spawned.len()
            invariant
                j <= self.spawned@.len(),
                forall|i: int| 0 <= i < j ==> (#[trigger] self.spawned@[i]) != point,
            decreases self.spawned@.len() - j,
        {
            if self.spawned[j] == point {
                assert(self.spawned@[j as int] == point);
                return true;
            }
            j += 1;
        }
        return false;
    }

    /// Constructs a new tilemap with the required texture atlas handle and
    /// the given tile dimensions, the rest defaulted.
    pub fn new(texture_atlas: u64, tile_width: u32, tile_height: u32) -> (t: Tilemap)
        requires
            tile_width >= 1,
            tile_height >= 1,
        ensures
            t.wf(),
            t.texture_atlas == texture_atlas,
            t.tile_dimensions == (Dimension2 { width: tile_width, height: tile_height }),
            t.topology == GridTopology::Square,
            t.dimensions is None,
            t.chunk_dimensions == (Dimension2 {
                width: DEFAULT_CHUNK_WIDTH,
                height: DEFAULT_CHUNK_HEIGHT,
            }),
            t.layers@.len() == DEFAULT_Z_LAYERS,
            forall|s: int| 0 <= s < t.layers@.len() ==> t.layers@[s] is None,
            !t.auto_chunk,
            t.auto_spawn is None,
            t.chunks@.len() == 0,
            t.chunk_events@.len() == 0,
            t.spawned@.len() == 0,
    {
        let mut t = Tilemap::default();
        t.texture_atlas = texture_atlas;
        t.tile_dimensions = Dimension2::new(tile_width, tile_height);
        t
    }

    /// Configures a builder with the default settings, for method chaining.
    pub fn builder() -> (b: TilemapBuilder)
        ensures
            b.is_default(),
            b.wf(),
    {
        TilemapBuilder::new()
    }

    /// Sets the texture atlas handle for use in the tilemap.
    pub fn set_texture_atlas(&mut self, handle: u64)
        ensures
            *final(self) == (Tilemap { texture_atlas: handle, ..*old(self) }),
    {
        self.texture_atlas = handle;
    }

    /// Returns the handle of the texture atlas.
    pub fn texture_atlas(&self) -> (h: u64)
        ensures
            h == self.texture_atlas,
    {
        self.texture_atlas
    }

    /// Constructs a new chunk and stores it at a coordinate position.
    ///
    /// Fails, leaving the map untouched, if the point lies outside bounded
    /// dimensions or a chunk already occupies it.
    pub fn insert_chunk(&mut self, point: Point2) -> (r: TilemapResult<()>)
        requires
            old(self).wf(),
        ensures
            final(self).wf(),
            final(self).same_config(*old(self)),
            final(self).layers == old(self).layers,
            final(self).chunk_events == old(self).chunk_events,
            final(self).spawned == old(self).spawned,
            r is Ok <==> ((match old(self).dimensions {
                Some(d) => point_in_dimension2(point, d),
                None => true,
            }) && !old(self).chunks_map().dom().contains(point)),
            r is Ok ==> final(self).chunks_map().dom() == old(self).chunks_map().dom().insert(
                point,
            ),
            r is Ok ==> forall|q: Point2|
                q != point && old(self).chunks_map().dom().contains(q)
                    ==> #[trigger] final(self).chunks_map()[q] == old(self).chunks_map()[q],
            r is Ok ==> forall|index: usize, zq: int|
                #[trigger] chunk_get(final(self).chunks_map()[point], index, zq, 0)
                    == None::<RawTile>,
            r is Ok ==> final(self).chunks_map()[point].entity is None,
            r is Err ==> *final(self) == *old(self),
            match r {
                Err(e) => e.0 == (if (match old(self).dimensions {
                    Some(d) => !point_in_dimension2(point, d),
                    None => false,
                }) {
                    ErrorKind::DimensionError(DimensionError::OutOfBounds)
                } else {
                    ErrorKind::ChunkAlreadyExists(point)
                }),
                Ok(()) => true,
            },
    {
        if let Some(dims) = self.dimensions {
            if let Err(e) = dims.check_point(point) {
                return Err(TilemapError(ErrorKind::DimensionError(e)));
            }
        }
        if let Some(_j) = self.find_chunk(point) {
            proof {
                lemma_assoc_map_dom(self.chunks@, point);
            }
            return Err(TilemapError(ErrorKind::ChunkAlreadyExists(point)));
        }
        proof {
            lemma_assoc_map_dom(self.chunks@, point);
        }
        let kinds = self.layer_kinds();
        proof {
            self.lemma_area_bound();
        }
        let chunk = Chunk::new(point, &kinds, self.chunk_dim3());
        proof {
            lemma_assoc_map_push(self.chunks@, point, chunk);
        }
        self.chunks.push((point, chunk));
        proof {
            let s2 = self.chunks@;
            let s = old(self).chunks@;
            assert forall|i: int| 0 <= i < s2.len() implies self.chunk_entry_wf(
                (#[trigger] s2[i]).0,
                s2[i].1,
            ) by {
                if i < s.len() {
                    assert(s2[i] == s[i]);
                    assert(old(self).chunk_entry_wf(s[i].0, s[i].1));
                } else {
                    assert(s2[i].1 == chunk);
                }
            }
            lemma_assoc_map_get(s2, s2.len() - 1);
            assert(final(self).chunks_map()[point] == chunk);
            assert forall|index: usize, zq: int| #[trigger] chunk_get(chunk, index, zq, 0)
                == None::<RawTile> by {
                if 0 <= zq < chunk.row_len(0) {
                    match chunk.slot_view(0, zq) {
                        Some(v) => {
                            let k = match kinds@[zq] {
                                Some(k) => k,
                                None => LayerKind::Dense,
                            };
                            lemma_empty_layer_get(k, old(self).area(), index);
                        },
                        None => {},
                    }
                }
            }
            assert forall|q: Point2|
                q != point && old(self).chunks_map().dom().contains(q)
                implies #[trigger] final(self).chunks_map()[q] == old(self).chunks_map()[q] by {
                lemma_assoc_map_dom(s, q);
                let jw = choose|jw: int| 0 <= jw < s.len() && (#[trigger] s[jw]).0 == q;
                lemma_assoc_map_get(s, jw);
                assert(s2[jw] == s[jw]);
                lemma_assoc_map_get(s2, jw);
            }
        }
        Ok(())
    }

    /// Returns `true` if a chunk occupies the coordinate.
    pub fn contains_chunk(&mut self, point: Point2) -> (r: bool)
        ensures
            *final(self) == *old(self),
            r == old(self).chunks_map().dom().contains(point),
    {
        proof {
            lemma_assoc_map_dom(self.chunks@, point);
        }
        match self.find_chunk(point) {
            Some(j) => {
                proof {
                    assert((self.chunks@[j as int]).0 == point);
                }
                true
            },
            None => false,
        }
    }
}

/// The kind of storage a layer view uses.
pub open spec fn layer_v_kind(v: LayerV) -> LayerKind {
    match v {
        LayerV::Dense(_) => LayerKind::Dense,
        LayerV::Sparse(_) => LayerKind::Sparse,
    }
}

/// Whether a layer view covers `area` cells: a dense view holds one slot per
/// cell; a sparse view covers any area.
pub open spec fn layer_v_covers(v: LayerV, area: int) -> bool {
    match v {
        LayerV::Dense(s) => s.len() == area,
        LayerV::Sparse(_) => true,
    }
}

impl Default for Tilemap {
    /// A square, unbounded tilemap with default chunk and tile dimensions,
    /// five unconfigured layers, no automatic chunk creation, and no chunks.
    fn default() -> (t: Tilemap)
        ensures
            t.wf(),
            t.topology == GridTopology::Square,
            t.dimensions is None,
            t.chunk_dimensions == (Dimension2 {
                width: DEFAULT_CHUNK_WIDTH,
                height: DEFAULT_CHUNK_HEIGHT,
            }),
            t.tile_dimensions == (Dimension2 {
                width: DEFAULT_TILE_WIDTH,
                height: DEFAULT_TILE_HEIGHT,
            }),
            t.layers@.len() == DEFAULT_Z_LAYERS,
            forall|s: int| 0 <= s < t.layers@.len() ==> t.layers@[s] is None,
            !t.auto_chunk,
            t.auto_spawn is None,
            t.texture_atlas == 0,
            t.chunks@.len() == 0,
            t.chunk_events@.len() == 0,
            t.spawned@.len() == 0,
    {
        let mut layers: Vec<Option<TilemapLayer>> = Vec::new();
        let mut s: usize = 0;
        while s < DEFAULT_Z_LAYERS
            invariant
                s <= DEFAULT_Z_LAYERS,
                layers@.len() == s,
                forall|ss: int| 0 <= ss < s ==> layers@[ss] is None,
            decreases DEFAULT_Z_LAYERS - s,
        {
            layers.push(None);
            s += 1;
        }
        Tilemap {
            topology: GridTopology::Square,
            dimensions: None,
            chunk_dimensions: Dimension2::new(DEFAULT_CHUNK_WIDTH, DEFAULT_CHUNK_HEIGHT),
            tile_dimensions: Dimension2::new(DEFAULT_TILE_WIDTH, DEFAULT_TILE_HEIGHT),
            layers,
            auto_chunk: false,
            auto_spawn: None,
            texture_atlas: 0,
            chunks: Vec::new(),
            chunk_events: Vec::new(),
            spawned: Vec::new(),
        }
    }
}

/// Tilemap factory, which can be used to construct and configure new
/// tilemaps by method chaining; `finish` validates the configuration and
/// assembles the tilemap atomically.
#[derive(Clone, Debug)]
pub struct TilemapBuilder {
    /// The type of grid to use.
    pub topology: GridTopology,
    /// The tilemap's dimensions in chunks, if bounded.
    pub dimensions: Option<Dimension2>,
    /// A chunk's dimensions in tiles.
    pub chunk_dimensions: Dimension2,
    /// A tile's dimensions in pixels; required.
    pub tile_dimensions: Option<Dimension2>,
    /// The number of z-order layers.
    pub z_layers: usize,
    /// The layers to configure, keyed by z-order; unique keys, later
    /// `add_layer` calls replacing earlier ones.
    pub layers: Vec<(usize, TilemapLayer)>,
    /// The texture atlas handle; required.
    pub texture_atlas: Option<u64>,
    /// Whether missing chunks are created on demand during edits.
    pub auto_chunk: bool,
    /// Dimensions of chunks to spawn around a camera, for external systems.
    pub auto_spawn: Option<Dimension2>,
}

impl TilemapBuilder {
    /// The configuration `TilemapBuilder::default` starts from.
    pub open spec fn is_default(self) -> bool {
        &&& self.topology == GridTopology::Square
        &&& self.dimensions is None
        &&& self.chunk_dimensions == (Dimension2 {
            width: DEFAULT_CHUNK_WIDTH,
            height: DEFAULT_CHUNK_HEIGHT,
        })
        &&& self.tile_dimensions is None
        &&& self.z_layers == DEFAULT_Z_LAYERS
        &&& self.layers@.len() == 0
        &&& self.texture_atlas is None
        &&& !self.auto_chunk
        &&& self.auto_spawn is None
    }

    /// Builder validity: chunk dimensions in range and unique layer keys.
    pub open spec fn wf(self) -> bool {
        &&& 1 <= self.chunk_dimensions.width <= MAX_CHUNK_SIDE
        &&& 1 <= self.chunk_dimensions.height <= MAX_CHUNK_SIDE
        &&& assoc_unique(self.layers@)
    }

    /// Configures the builder with the default settings.
    pub fn new() -> (b: TilemapBuilder)
        ensures
            b.is_default(),
            b.wf(),
    {
        TilemapBuilder::default()
    }

    /// Sets the topology of the tilemap.
    pub fn topology(self, topology: GridTopology) -> (b: TilemapBuilder)
        ensures
            b == (TilemapBuilder { topology, ..self }),
    {
        TilemapBuilder { topology, ..self }
    }

    /// Sets the dimensions of the tilemap, in chunks.  Unset means boundless.
    pub fn dimensions(self, width: u32, height: u32) -> (b: TilemapBuilder)
        requires
            width >= 1,
            height >= 1,
        ensures
            b == (TilemapBuilder {
                dimensions: Some(Dimension2 { width, height }),
                ..self
            }),
    {
        TilemapBuilder { dimensions: Some(Dimension2::new(width, height)), ..self }
    }

    /// Sets the chunk dimensions, in tiles.
    pub fn chunk_dimensions(self, width: u32, height: u32) -> (b: TilemapBuilder)
        requires
            1 <= width <= MAX_CHUNK_SIDE,
            1 <= height <= MAX_CHUNK_SIDE,
        ensures
            b == (TilemapBuilder {
                chunk_dimensions: Dimension2 { width, height },
                ..self
            }),
    {
        TilemapBuilder { chunk_dimensions: Dimension2::new(width, height), ..self }
    }

    /// Sets the tile dimensions, in pixels; required for `finish`.
    pub fn tile_dimensions(self, width: u32, height: u32) -> (b: TilemapBuilder)
        requires
            width >= 1,
            height >= 1,
        ensures
            b == (TilemapBuilder {
                tile_dimensions: Some(Dimension2 { width, height }),
                ..self
            }),
    {
        TilemapBuilder { tile_dimensions: Some(Dimension2::new(width, height)), ..self }
    }

    /// Sets the number of z-order layers that sprites can exist on.
    pub fn z_layers(self, layers: usize) -> (b: TilemapBuilder)
        ensures
            b == (TilemapBuilder { z_layers: layers, ..self }),
    {
        TilemapBuilder { z_layers: layers, ..self }
    }

    /// Adds a layer configuration at a z-order.  Adding twice at the same
    /// z-order keeps the later layer.
    pub fn add_layer(self, layer: TilemapLayer, z_order: usize) -> (b: TilemapBuilder)
        requires
            self.wf(),
        ensures
            b.wf(),
            b == (TilemapBuilder { layers: b.layers, ..self }),
            assoc_map(b.layers@) == assoc_map(self.layers@).insert(z_order, layer),
            forall|j: int|
                0 <= j < b.layers@.len() ==> assoc_map(self.layers@).dom().contains(
                    (#[trigger] b.layers@[j]).0,
                ) || (b.layers@[j]).0 == z_order,
            forall|z: usize|
                assoc_map(self.layers@).dom().contains(z) ==> assoc_map(b.layers@).dom().contains(
                    z,
                ),
    {
        let mut b = self;
        let ghost s = b.layers@;
        let mut j: usize = 0;
        while j < b.layers.len()
            invariant
                j <= s.len(),
                b.layers@ == s,
                s == self.layers@,
                b.wf(),
                b == (TilemapBuilder { layers: b.layers, ..self }),
                forall|i: int| 0 <= i < j ==> (#[trigger] s[i]).0 != z_order,
            decreases s.len() - j,
        {
            if b.layers[j].0 == z_order {
                proof {
                    lemma_assoc_map_update(s, j as int, layer);
                }
                b.layers.set(j, (z_order, layer));
                proof {
                    let s2 = b.layers@;
                    assert(s2 == s.update(j as int, (z_order, layer)));
                    assert forall|jj: int|
                        0 <= jj < s2.len() implies assoc_map(s).dom().contains(
                        (#[trigger] s2[jj]).0,
                    ) || (s2[jj]).0 == z_order by {
                        if jj != j {
                            assert(s2[jj] == s[jj]);
                            lemma_assoc_map_get(s, jj);
                        }
                    }
                    assert forall|z: usize| assoc_map(s).dom().contains(z) implies assoc_map(
                        s2,
                    ).dom().contains(z) by {
                        lemma_assoc_map_dom(s, z);
                        let jw = choose|jw: int| 0 <= jw < s.len() && (#[trigger] s[jw]).0 == z;
                        lemma_assoc_map_dom(s2, z);
                        if jw == j {
                            assert((s2[jw]).0 == z);
                        } else {
                            assert((s2[jw]).0 == z);
                        }
                    }
                }
                return b;
            }
            j += 1;
        }
        proof {
            lemma_assoc_map_push(s, z_order, layer);
        }
        b.layers.push((z_order, layer));
        proof {
            let s2 = b.layers@;
            assert forall|jj: int|
                0 <= jj < s2.len() implies assoc_map(s).dom().contains((#[trigger] s2[jj]).0) || (
            s2[jj]).0 == z_order by {
                if jj < s.len() {
                    assert(s2[jj] == s[jj]);
                    lemma_assoc_map_get(s, jj);
                }
            }
            assert forall|z: usize| assoc_map(s).dom().contains(z) implies assoc_map(
                s2,
            ).dom().contains(z) by {
                lemma_assoc_map_dom(s, z);
                let jw = choose|jw: int| 0 <= jw < s.len() && (#[trigger] s[jw]).0 == z;
                assert((s2[jw]).0 == z);
                lemma_assoc_map_dom(s2, z);
            }
        }
        b
    }

    /// Sets the texture atlas handle; required for `finish`.
    pub fn texture_atlas(self, handle: u64) -> (b: TilemapBuilder)
        ensures
            b == (TilemapBuilder { texture_atlas: Some(handle), ..self }),
    {
        TilemapBuilder { texture_atlas: Some(handle), ..self }
    }

    /// Toggles automatic creation of missing chunks during edits.
    pub fn auto_chunk(self) -> (b: TilemapBuilder)
        ensures
            b == (TilemapBuilder { auto_chunk: !self.auto_chunk, ..self }),
    {
        let flag = !self.auto_chunk;
        TilemapBuilder { auto_chunk: flag, ..self }
    }

    /// Sets the dimensions, in chunks, that external systems spawn around a
    /// camera automatically.
    pub fn auto_spawn(self, width: u32, height: u32) -> (b: TilemapBuilder)
        requires
            width >= 1,
            height >= 1,
        ensures
            b == (TilemapBuilder {
                auto_spawn: Some(Dimension2 { width, height }),
                ..self
            }),
    {
        TilemapBuilder { auto_spawn: Some(Dimension2::new(width, height)), ..self }
    }
}

impl Default for TilemapBuilder {
    /// The default configuration: a square, boundless map of 32 by 32 tile
    /// chunks, five z-order layers, nothing required yet set.
    fn default() -> (b: TilemapBuilder)
        ensures
            b.is_default(),
            b.wf(),
    {
        TilemapBuilder {
            topology: GridTopology::Square,
            dimensions: None,
            chunk_dimensions: Dimension2::new(DEFAULT_CHUNK_WIDTH, DEFAULT_CHUNK_HEIGHT),
            tile_dimensions: None,
            z_layers: DEFAULT_Z_LAYERS,
            layers: Vec::new(),
            texture_atlas: None,
            auto_chunk: false,
            auto_spawn: None,
        }
    }
}


impl Tilemap {
    /// Spawns a chunk at a chunk coordinate: records it as spawned and emits
    /// one `Spawned` event.  Spawning an already-spawned chunk is a no-op and
    /// emits nothing.  Fails only on a point outside bounded dimensions.
    pub fn spawn_chunk(&mut self, point: Point2) -> (r: TilemapResult<()>)
        requires
            old(self).wf(),
        ensures
            final(self).wf(),
            final(self).same_config(*old(self)),
            final(self).layers == old(self).layers,
            final(self).chunks == old(self).chunks,
            r is Ok <==> (match old(self).dimensions {
                Some(d) => point_in_dimension2(point, d),
                None => true,
            }),
            r is Err ==> *final(self) == *old(self) && r == Err::<(), TilemapError>(
                TilemapError(ErrorKind::DimensionError(DimensionError::OutOfBounds)),
            ),
            r is Ok && old(self).spawned@.contains(point) ==> *final(self) == *old(self),
            r is Ok && !old(self).spawned@.contains(point) ==> final(self).spawned@ == old(
                self,
            ).spawned@.push(point) && final(self).chunk_events@ == old(self).chunk_events@.push(
                TilemapChunkEvent::Spawned { point },
            ),
    {
        if let Some(dims) = self.dimensions {
            if let Err(_e) = dims.check_point(point) {
                return Err(TilemapError(ErrorKind::DimensionError(DimensionError::OutOfBounds)));
            }
        }
        if self.is_spawned(point) {
            return Ok(());
        }
        self.spawned.push(point);
        self.chunk_events.push(TilemapChunkEvent::Spawned { point });
        proof {
            let s2 = final(self).spawned@;
            let s = old(self).spawned@;
            assert forall|i: int, j: int| 0 <= i < j < s2.len() implies s2[i] != s2[j] by {
                if j == s2.len() - 1 {
                    assert(s2[i] == s[i]);
                    assert(!s.contains(point));
                } else {
                    assert(s2[i] == s[i] && s2[j] == s[j]);
                }
            }
        }
        Ok(())
    }

    /// Spawns the chunk containing a global tile point.
    pub fn spawn_chunk_containing_point(&mut self, point: Point2) -> (r: TilemapResult<()>)
        requires
            old(self).wf(),
        ensures
            final(self).wf(),
            final(self).same_config(*old(self)),
            final(self).layers == old(self).layers,
            final(self).chunks == old(self).chunks,
            r is Ok <==> (match old(self).dimensions {
                Some(d) => point_in_dimension2(old(self).chunk_point_of(point), d),
                None => true,
            }),
            r is Err ==> *final(self) == *old(self),
            r is Ok && old(self).spawned@.contains(old(self).chunk_point_of(point))
                ==> *final(self) == *old(self),
            r is Ok && !old(self).spawned@.contains(old(self).chunk_point_of(point))
                ==> final(self).spawned@ == old(self).spawned@.push(old(self).chunk_point_of(point))
                && final(self).chunk_events@ == old(self).chunk_events@.push(
                TilemapChunkEvent::Spawned { point: old(self).chunk_point_of(point) },
            ),
    {
        let cp = point_to_chunk_point(point, self.chunk_dimensions);
        self.spawn_chunk(cp)
    }

    /// De-spawns a chunk at a chunk coordinate: removes it from the spawned
    /// set and, when the chunk exists, emits one `Despawned` event carrying
    /// the entity handles attached to it, so the consumer can clean up.  The
    /// chunk's data is retained.  Fails only on a point outside bounded
    /// dimensions.
    pub fn despawn_chunk(&mut self, point: Point2) -> (r: TilemapResult<()>)
        requires
            old(self).wf(),
        ensures
            final(self).wf(),
            final(self).same_config(*old(self)),
            final(self).layers == old(self).layers,
            final(self).chunks == old(self).chunks,
            r is Ok <==> (match old(self).dimensions {
                Some(d) => point_in_dimension2(point, d),
                None => true,
            }),
            r is Err ==> *final(self) == *old(self) && r == Err::<(), TilemapError>(
                TilemapError(ErrorKind::DimensionError(DimensionError::OutOfBounds)),
            ),
            r is Ok ==> forall|q: Point2|
                #[trigger] final(self).spawned@.contains(q) <==> (old(self).spawned@.contains(q)
                    && q != point),
            r is Ok && !old(self).chunks_map().dom().contains(point) ==> final(self).chunk_events
                == old(self).chunk_events,
            r is Ok && old(self).chunks_map().dom().contains(point) ==> {
                &&& final(self).chunk_events@.len() == old(self).chunk_events@.len() + 1
                &&& final(self).chunk_events@.take(old(self).chunk_events@.len() as int) == old(
                    self,
                ).chunk_events@
                &&& (final(self).chunk_events@.last() matches TilemapChunkEvent::Despawned {
                    point: p2,
                    entities,
                } && p2 == point && entities@ == (match old(self).chunks_map()[point].entity {
                    Some(e) => seq![e],
                    None => Seq::<u64>::empty(),
                }))
            },
    {
        if let Some(dims) = self.dimensions {
            if let Err(_e) = dims.check_point(point) {
                return Err(TilemapError(ErrorKind::DimensionError(DimensionError::OutOfBounds)));
            }
        }
        let ghost sp0 = self.spawned@;
        let mut spawn_idx: Option<usize> = None;
        let mut j: usize = 0;
        while j < self.spawned.len() && spawn_idx.is_none()
            invariant
                j <= sp0.len(),
                sp0 == self.spawned@,
                match spawn_idx {
                    Some(k) => k < sp0.len() && sp0[k as int] == point,
                    None => forall|i: int| 0 <= i < j ==> (#[trigger] sp0[i]) != point,
                },
            decreases sp0.len() - j,
        {
            if self.spawned[j] == point {
                spawn_idx = Some(j);
            }
            j += 1;
        }
        match spawn_idx {
            Some(k) => {
                self.spawned.remove(k);
                proof {
                    let kk = k as int;
                    sp0.remove_ensures(kk);
                    assert(sp0[kk] == point);
                    let s2 = self.spawned@;
                    assert forall|q: Point2| #[trigger] s2.contains(q) implies (sp0.contains(q) && q
                        != point) by {
                        let iw = choose|iw: int| 0 <= iw < s2.len() && s2[iw] == q;
                        let mw: int = if iw < kk { iw } else { iw + 1 };
                        assert(sp0[mw] == q);
                        if mw < kk {
                            assert(sp0[mw] != sp0[kk]);
                        } else {
                            assert(sp0[kk] != sp0[mw]);
                        }
                    }
                    assert forall|q: Point2| sp0.contains(q) && q != point implies s2.contains(
                        q,
                    ) by {
                        let iw = choose|iw: int| 0 <= iw < sp0.len() && sp0[iw] == q;
                        assert(iw != kk);
                        let mw: int = if iw < kk { iw } else { iw - 1 };
                        assert(s2[mw] == q);
                    }
                    assert forall|i1: int, i2: int| 0 <= i1 < i2 < s2.len() implies s2[i1]
                        != s2[i2] by {
                        let m1: int = if i1 < kk { i1 } else { i1 + 1 };
                        let m2: int = if i2 < kk { i2 } else { i2 + 1 };
                        assert(s2[i1] == sp0[m1] && s2[i2] == sp0[m2]);
                    }
                }
            },
            None => {
                proof {
                    assert forall|q: Point2| #[trigger] self.spawned@.contains(q) implies (
                    sp0.contains(q) && q != point) by {
                        if q == point {
                            let iw = choose|iw: int| 0 <= iw < sp0.len() && sp0[iw] == q;
                            assert(sp0[iw] != point);
                        }
                    }
                }
            },
        }
        match self.find_chunk(point) {
            Some(cj) => {
                proof {
                    lemma_assoc_map_get(self.chunks@, cj as int);
                    lemma_assoc_map_dom(self.chunks@, point);
                }
                let entities = self.chunks[cj].1.get_entities();
                self.chunk_events.push(TilemapChunkEvent::Despawned { point, entities });
                proof {
                    assert(self.chunk_events@.take(old(self).chunk_events@.len() as int)
                        =~= old(self).chunk_events@);
                }
            },
            None => {
                proof {
                    lemma_assoc_map_dom(self.chunks@, point);
                }
            },
        }
        Ok(())
    }

    /// Destructively removes a chunk at a coordinate position, despawning it
    /// first.  Does nothing beyond the despawn if the chunk does not exist.
    /// Fails only on a point outside bounded dimensions.
    pub fn remove_chunk(&mut self, point: Point2) -> (r: TilemapResult<()>)
        requires
            old(self).wf(),
        ensures
            final(self).wf(),
            final(self).same_config(*old(self)),
            final(self).layers == old(self).layers,
            r is Ok <==> (match old(self).dimensions {
                Some(d) => point_in_dimension2(point, d),
                None => true,
            }),
            r is Err ==> *final(self) == *old(self),
            r is Ok ==> final(self).chunks_map() == old(self).chunks_map().remove(point),
            r is Ok ==> forall|q: Point2|
                #[trigger] final(self).spawned@.contains(q) <==> (old(self).spawned@.contains(q)
                    && q != point),
            r is Ok && !old(self).chunks_map().dom().contains(point) ==> final(self).chunk_events
                == old(self).chunk_events,
            r is Ok && old(self).chunks_map().dom().contains(point) ==> {
                &&& final(self).chunk_events@.len() == old(self).chunk_events@.len() + 1
                &&& final(self).chunk_events@.take(old(self).chunk_events@.len() as int) == old(
                    self,
                ).chunk_events@
                &&& (final(self).chunk_events@.last() matches TilemapChunkEvent::Despawned {
                    point: p2,
                    entities,
                } && p2 == point)
            },
    {
        match self.despawn_chunk(point) {
            Ok(()) => {},
            Err(e) => {
                return Err(e);
            },
        }
        match self.find_chunk(point) {
            Some(j) => {
                proof {
                    lemma_assoc_map_remove(self.chunks@, j as int);
                    lemma_assoc_map_dom(self.chunks@, point);
                }
                let ghost pre = self.chunks@;
                self.chunks.remove(j);
                proof {
                    let s2 = self.chunks@;
                    pre.remove_ensures(j as int);
                    assert forall|i: int| 0 <= i < s2.len() implies final(self).chunk_entry_wf(
                        (#[trigger] s2[i]).0,
                        s2[i].1,
                    ) by {
                        let mw: int = if i < j { i } else { i + 1 };
                        assert(s2[i] == pre[mw]);
                    }
                }
            },
            None => {
                proof {
                    lemma_assoc_map_dom(self.chunks@, point);
                    assert(final(self).chunks_map() =~= old(self).chunks_map().remove(point));
                }
            },
        }
        Ok(())
    }

    /// Takes a global tile point and returns the chunk coordinate of the
    /// chunk containing it: a centered-origin floor division per axis.
    pub fn point_to_chunk_point(&self, point: Point2) -> (r: (i32, i32))
        requires
            self.wf(),
        ensures
            r.0 == chunk_coord(point.x as int, self.chunk_dimensions.width as int),
            r.1 == chunk_coord(point.y as int, self.chunk_dimensions.height as int),
            (Point2 { x: r.0, y: r.1 }) == self.chunk_point_of(point),
    {
        let cp = point_to_chunk_point(point, self.chunk_dimensions);
        (cp.x, cp.y)
    }

    /// Gets the raw tile at a global point and z-order, if one is present.
    pub fn get_tile(&mut self, point: Point2, z_order: usize) -> (r: Option<RawTile>)
        requires
            old(self).wf(),
        ensures
            *final(self) == *old(self),
            r == old(self).get_tile_spec(point, z_order as int),
    {
        proof {
            self.lemma_area_bound();
        }
        let cp = point_to_chunk_point(point, self.chunk_dimensions);
        let lp = point_to_local_point(point, cp, self.chunk_dimensions);
        match self.find_chunk(cp) {
            Some(j) => {
                proof {
                    lemma_assoc_map_get(self.chunks@, j as int);
                }
                let index = self.chunk_dimensions.encode_point_unchecked(lp);
                self.chunks[j].1.get_tile(index, z_order, 0)
            },
            None => {
                proof {
                    lemma_assoc_map_dom(self.chunks@, cp);
                }
                None
            },
        }
    }

    /// Gets the raw tile at a global point and z-order, eagerly emitting a
    /// modification event when the owning chunk carries an entity handle: a
    /// mutable access is assumed to imply a mutation.  The tile itself is
    /// returned by value; write changes back through `insert_tile`.
    pub fn get_tile_mut(&mut self, point: Point2, z_order: usize) -> (r: Option<RawTile>)
        requires
            old(self).wf(),
        ensures
            final(self).wf(),
            final(self).same_config(*old(self)),
            final(self).layers == old(self).layers,
            final(self).chunks == old(self).chunks,
            final(self).spawned == old(self).spawned,
            r == old(self).get_tile_spec(point, z_order as int),
            ({
                let cp = old(self).chunk_point_of(point);
                if old(self).chunks_map().dom().contains(cp) && old(
                    self,
                ).chunks_map()[cp].entity is Some {
                    &&& final(self).chunk_events@.len() == old(self).chunk_events@.len() + 1
                    &&& final(self).chunk_events@.take(old(self).chunk_events@.len() as int) == old(
                        self,
                    ).chunk_events@
                    &&& (final(self).chunk_events@.last() matches TilemapChunkEvent::Modified {
                        layers,
                    } && layers@ == seq![
                        (z_order, old(self).chunks_map()[cp].entity),
                    ])
                } else {
                    final(self).chunk_events == old(self).chunk_events
                }
            }),
    {
        proof {
            self.lemma_area_bound();
        }
        let cp = point_to_chunk_point(point, self.chunk_dimensions);
        let lp = point_to_local_point(point, cp, self.chunk_dimensions);
        match self.find_chunk(cp) {
            Some(j) => {
                proof {
                    lemma_assoc_map_get(self.chunks@, j as int);
                }
                let index = self.chunk_dimensions.encode_point_unchecked(lp);
                let r = self.chunks[j].1.get_tile(index, z_order, 0);
                if let Some(e) = self.chunks[j].1.get_entity() {
                    let mut layers: Vec<(usize, Option<u64>)> = Vec::new();
                    layers.push((z_order, Some(e)));
                    self.chunk_events.push(TilemapChunkEvent::Modified { layers });
                    proof {
                        assert(final(self).chunk_events@.take(old(self).chunk_events@.len() as int)
                            =~= old(self).chunk_events@);
                    }
                }
                r
            },
            None => {
                proof {
                    lemma_assoc_map_dom(self.chunks@, cp);
                }
                None
            },
        }
    }

    /// Returns the center tile coordinate, if the tilemap has dimensions.
    pub fn center_tile_coord(&self) -> (r: Option<(i32, i32)>)
        requires
            match self.dimensions {
                Some(d) => d.width as int / 2 * self.chunk_dimensions.width as int <= 0x7fff_ffff
                    && d.height as int / 2 * self.chunk_dimensions.height as int <= 0x7fff_ffff,
                None => true,
            },
        ensures
            match r {
                Some(c) => self.dimensions matches Some(d) && c.0 == d.width as int / 2
                    * self.chunk_dimensions.width as int && c.1 == d.height as int / 2
                    * self.chunk_dimensions.height as int,
                None => self.dimensions is None,
            },
    {
        match self.dimensions {
            Some(d) => {
                let cx = (d.width / 2) as u64 * self.chunk_dimensions.width as u64;
                let cy = (d.height / 2) as u64 * self.chunk_dimensions.height as u64;
                Some((cx as i32, cy as i32))
            },
            None => None,
        }
    }

    /// The width of the tilemap in chunks, if it has dimensions.
    pub fn width(&self) -> (r: Option<u32>)
        ensures
            r == match self.dimensions {
                Some(d) => Some(d.width),
                None => None::<u32>,
            },
    {
        match self.dimensions {
            Some(d) => Some(d.width),
            None => None,
        }
    }

    /// The height of the tilemap in chunks, if it has dimensions.
    pub fn height(&self) -> (r: Option<u32>)
        ensures
            r == match self.dimensions {
                Some(d) => Some(d.height),
                None => None::<u32>,
            },
    {
        match self.dimensions {
            Some(d) => Some(d.height),
            None => None,
        }
    }

    /// The width of all the chunks, in tiles.
    pub fn chunk_width(&self) -> (r: u32)
        ensures
            r == self.chunk_dimensions.width,
    {
        self.chunk_dimensions.width
    }

    /// The height of all the chunks, in tiles.
    pub fn chunk_height(&self) -> (r: u32)
        ensures
            r == self.chunk_dimensions.height,
    {
        self.chunk_dimensions.height
    }

    /// The width of a tile, in pixels.
    pub fn tile_width(&self) -> (r: u32)
        ensures
            r == self.tile_dimensions.width,
    {
        self.tile_dimensions.width
    }

    /// The height of a tile, in pixels.
    pub fn tile_height(&self) -> (r: u32)
        ensures
            r == self.tile_dimensions.height,
    {
        self.tile_dimensions.height
    }

    /// The topology of the tilemap grid.
    pub fn topology(&self) -> (t: GridTopology)
        ensures
            t == self.topology,
    {
        self.topology
    }

    /// Gets a reference to the chunk at a chunk coordinate, if one exists.
    pub fn get_chunk(&self, point: &Point2) -> (r: Option<&Chunk>)
        requires
            self.wf(),
        ensures
            match r {
                Some(c) => self.chunks_map().dom().contains(*point) && *c
                    == self.chunks_map()[*point],
                None => !self.chunks_map().dom().contains(*point),
            },
    {
        match self.find_chunk(*point) {
            Some(j) => {
                proof {
                    lemma_assoc_map_get(self.chunks@, j as int);
                }
                Some(&self.chunks[j].1)
            },
            None => {
                proof {
                    lemma_assoc_map_dom(self.chunks@, *point);
                }
                None
            },
        }
    }

    /// Returns a reference to the tilemap's pending chunk events.
    pub fn chunk_events(&self) -> (r: &Vec<TilemapChunkEvent>)
        ensures
            r == &self.chunk_events,
    {
        &self.chunk_events
    }

    /// Drains the chunk events.  The external scheduler calls this once per
    /// tick, after every consumer has observed the tick's events.
    pub fn chunk_events_update(&mut self)
        ensures
            *final(self) == (Tilemap { chunk_events: final(self).chunk_events, ..*old(self) }),
            final(self).chunk_events@.len() == 0,
    {
        self.chunk_events = Vec::new();
    }

    /// Returns the dimensions, in chunks, that external systems spawn around
    /// a camera automatically, if set.
    pub fn auto_spawn(&self) -> (r: Option<Dimension2>)
        ensures
            r == self.auto_spawn,
    {
        self.auto_spawn
    }

    /// Sets the auto-spawn dimensions.
    pub fn set_auto_spawn(&mut self, dimension: Dimension2)
        ensures
            *final(self) == (Tilemap { auto_spawn: Some(dimension), ..*old(self) }),
    {
        self.auto_spawn = Some(dimension);
    }

    /// Returns a copy of the chunk dimensions, in tiles.
    pub fn chunk_dimensions(&self) -> (r: Dimension2)
        ensures
            r == self.chunk_dimensions,
    {
        self.chunk_dimensions
    }

    /// Returns a copy of the tile dimensions, in pixels.
    pub fn tile_dimensions(&self) -> (r: Dimension2)
        ensures
            r == self.tile_dimensions,
    {
        self.tile_dimensions
    }

    /// Returns a reference to the spawned chunk coordinates.
    pub fn spawned_chunks(&self) -> (r: &Vec<Point2>)
        ensures
            r == &self.spawned,
    {
        &self.spawned
    }

    /// Returns a copy of the layer table.
    pub fn layers(&self) -> (r: Vec<Option<TilemapLayer>>)
        ensures
            r@ == self.layers@,
    {
        let mut out: Vec<Option<TilemapLayer>> = Vec::new();
        let mut s: usize = 0;
        while s < self.layers.len()
            invariant
                s <= self.layers@.len(),
                out@ == self.layers@.take(s as int),
            decreases self.layers@.len() - s,
        {
            out.push(self.layers[s]);
            proof {
                assert(out@ =~= self.layers@.take(s + 1));
            }
            s += 1;
        }
        proof {
            assert(self.layers@.take(self.layers@.len() as int) =~= self.layers@);
        }
        out
    }
}


/// Frame of a chunk under a structural change at one layer slot: everything
/// but that slot's contents is preserved.
pub open spec fn chunk_frame_except_slot(oldc: Chunk, newc: Chunk, z: int) -> bool {
    &&& newc.point == oldc.point
    &&& newc.mesh == oldc.mesh
    &&& newc.entity == oldc.entity
    &&& newc.depth_count() == oldc.depth_count()
    &&& forall|d: int| 0 <= d < oldc.depth_count() ==> newc.row_len(d) == oldc.row_len(d)
    &&& forall|d: int, s: int|
        0 <= d < oldc.depth_count() && 0 <= s < oldc.row_len(d) && s != z
            ==> #[trigger] newc.z_layers@[d]@[s] == oldc.z_layers@[d]@[s]
}

impl Tilemap {
    /// Adds a layer to the tilemap at a z-order, materializing it across all
    /// existing chunks: the table and the chunks never diverge.
    ///
    /// Reads are unaffected: the new layer is empty.  Fails with
    /// `LayerExists`, touching nothing, if the slot is already configured,
    /// protecting against silent overwrites; a z-order beyond the table is a
    /// silent no-op.
    pub fn add_layer(&mut self, layer: TilemapLayer, z_order: usize) -> (r: TilemapResult<()>)
        requires
            old(self).wf(),
        ensures
            final(self).wf(),
            final(self).same_config(*old(self)),
            final(self).chunk_events == old(self).chunk_events,
            final(self).spawned == old(self).spawned,
            r is Err <==> (z_order < old(self).layers@.len() && old(self).layers@[z_order as int]
                is Some),
            r is Err ==> *final(self) == *old(self) && r == Err::<(), TilemapError>(
                TilemapError(ErrorKind::LayerExists(z_order)),
            ),
            r is Ok && z_order >= old(self).layers@.len() ==> *final(self) == *old(self),
            r is Ok && z_order < old(self).layers@.len() ==> {
                &&& final(self).layers@ == old(self).layers@.update(z_order as int, Some(layer))
                &&& final(self).chunks_map().dom() == old(self).chunks_map().dom()
                &&& forall|p: Point2, zq: int|
                    #[trigger] final(self).get_tile_spec(p, zq) == old(self).get_tile_spec(p, zq)
                &&& forall|q: Point2|
                    old(self).chunks_map().dom().contains(q)
                        ==> (#[trigger] final(self).chunks_map()[q]).entity == old(
                        self,
                    ).chunks_map()[q].entity
            },
    {
        if z_order >= self.layers.len() {
            return Ok(());
        }
        if self.layers[z_order].is_some() {
            return Err(TilemapError(ErrorKind::LayerExists(z_order)));
        }
        self.layers.set(z_order, Some(layer));
        proof {
            old(self).lemma_area_bound();
        }
        let d3 = self.chunk_dim3();
        let ghost n = self.chunks@.len();
        let mut j: usize = 0;
        while j < self.chunks.len()
            invariant
                j <= n,
                n == old(self).chunks@.len(),
                old(self).wf(),
                z_order < old(self).layers@.len(),
                old(self).layers@[z_order as int] is None,
                d3 == old(self).chunk_dim3_spec(),
                self.same_config(*old(self)),
                self.chunk_events == old(self).chunk_events,
                self.spawned == old(self).spawned,
                self.layers@ == old(self).layers@.update(z_order as int, Some(layer)),
                self.chunks@.len() == n,
                forall|i: int|
                    0 <= i < n ==> (#[trigger] self.chunks@[i]).0 == old(self).chunks@[i].0,
                forall|i: int|
                    j <= i < n ==> (#[trigger] self.chunks@[i]).1 == old(self).chunks@[i].1,
                forall|i: int|
                    0 <= i < j ==> chunk_frame_except_slot(
                        old(self).chunks@[i].1,
                        (#[trigger] self.chunks@[i]).1,
                        z_order as int,
                    ),
                forall|i: int| 0 <= i < j ==> (#[trigger] self.chunks@[i]).1.rep_wf(),
                forall|i: int|
                    0 <= i < j ==> #[trigger] self.chunks@[i].1.slot_view(0, z_order as int)
                        == Some(empty_layer_v(layer.kind, old(self).area())),
            decreases n - j,
        {
            let ghost pre = self.chunks@;
            proof {
                old(self).lemma_area_bound();
                assert(old(self).chunk_entry_wf(
                    (old(self).chunks@[j as int]).0,
                    old(self).chunks@[j as int].1,
                ));
            }
            let (cp, mut c) = self.chunks.remove(j);
            c.add_sprite_layer(&layer.kind, z_order, d3);
            self.chunks.insert(j, (cp, c));
            proof {
                assert(self.chunks@ =~= pre.update(j as int, (cp, c)));
            }
            j += 1;
        }
        proof {
            let s_old = old(self).chunks@;
            let s_new = self.chunks@;
            assert forall|i1: int, i2: int| 0 <= i1 < i2 < s_new.len() implies (
            #[trigger] s_new[i1]).0 != (#[trigger] s_new[i2]).0 by {
                assert((s_old[i1]).0 != (s_old[i2]).0);
            }
            lemma_assoc_same_keys(s_old, s_new);
            assert forall|i: int| 0 <= i < s_new.len() implies self.chunk_entry_wf(
                (#[trigger] s_new[i]).0,
                s_new[i].1,
            ) by {
                let oc = s_old[i].1;
                let nc = s_new[i].1;
                assert(old(self).chunk_entry_wf((s_old[i]).0, oc));
                assert(chunk_frame_except_slot(oc, nc, z_order as int));
                assert forall|sl: int| 0 <= sl < self.layers@.len() implies match (
                #[trigger] nc.slot_view(0, sl), self.layers@[sl]) {
                    (Some(v), Some(tl)) => layer_v_kind(v) == tl.kind && layer_v_covers(
                        v,
                        self.area(),
                    ),
                    (None, None) => true,
                    _ => false,
                } by {
                    if sl != z_order {
                        assert(nc.z_layers@[0]@[sl] == oc.z_layers@[0]@[sl]);
                        assert(nc.slot_view(0, sl) == oc.slot_view(0, sl));
                        assert(self.layers@[sl] == old(self).layers@[sl]);
                    } else {
                        assert(nc.slot_view(0, z_order as int) == Some(
                            empty_layer_v(layer.kind, old(self).area()),
                        ));
                        assert(self.layers@[sl] == Some(layer));
                        assert(self.area() == old(self).area());
                    }
                }
            }
            assert forall|p: Point2, zq: int| #[trigger] self.get_tile_spec(p, zq) == old(
                self,
            ).get_tile_spec(p, zq) by {
                let cp = self.chunk_point_of(p);
                assert(cp == old(self).chunk_point_of(p));
                lemma_assoc_map_dom(s_old, cp);
                lemma_assoc_map_dom(s_new, cp);
                if old(self).chunks_map().dom().contains(cp) {
                    let jw = choose|jw: int| 0 <= jw < s_old.len() && (#[trigger] s_old[jw]).0
                        == cp;
                    lemma_assoc_map_get(s_old, jw);
                    lemma_assoc_map_get(s_new, jw);
                    let oc = s_old[jw].1;
                    let nc = s_new[jw].1;
                    assert(old(self).chunk_entry_wf((s_old[jw]).0, oc));
                    let idx = self.local_index_of(p) as usize;
                    if 0 <= zq < oc.row_len(0) {
                        if zq == z_order {
                            lemma_empty_layer_get(layer.kind, old(self).area(), idx);
                        } else {
                            assert(nc.z_layers@[0]@[zq] == oc.z_layers@[0]@[zq]);
                        }
                    }
                }
            }
            assert forall|q: Point2| old(self).chunks_map().dom().contains(q) implies (
            #[trigger] self.chunks_map()[q]).entity == old(self).chunks_map()[q].entity by {
                lemma_assoc_map_dom(s_old, q);
                let jw = choose|jw: int| 0 <= jw < s_old.len() && (#[trigger] s_old[jw]).0 == q;
                lemma_assoc_map_get(s_old, jw);
                lemma_assoc_map_get(s_new, jw);
            }
        }
        Ok(())
    }

    /// Adds a layer of the given kind at a z-order; the same operation as
    /// `add_layer` with an explicitly chosen storage kind.
    pub fn add_layer_with_kind(&mut self, kind: LayerKind, z_order: usize) -> (r: TilemapResult<
        (),
    >)
        requires
            old(self).wf(),
        ensures
            final(self).wf(),
            final(self).same_config(*old(self)),
            final(self).chunk_events == old(self).chunk_events,
            final(self).spawned == old(self).spawned,
            r is Err <==> (z_order < old(self).layers@.len() && old(self).layers@[z_order as int]
                is Some),
            r is Err ==> *final(self) == *old(self) && r == Err::<(), TilemapError>(
                TilemapError(ErrorKind::LayerExists(z_order)),
            ),
            r is Ok && z_order >= old(self).layers@.len() ==> *final(self) == *old(self),
            r is Ok && z_order < old(self).layers@.len() ==> {
                &&& final(self).layers@ == old(self).layers@.update(
                    z_order as int,
                    Some(TilemapLayer { kind }),
                )
                &&& final(self).chunks_map().dom() == old(self).chunks_map().dom()
                &&& forall|p: Point2, zq: int|
                    #[trigger] final(self).get_tile_spec(p, zq) == old(self).get_tile_spec(p, zq)
            },
    {
        self.add_layer(TilemapLayer { kind }, z_order)
    }
}


impl Tilemap {
    /// Moves a layer from one z-order to another, in the table and in every
    /// chunk alike.  Fails, touching nothing, if the destination is already
    /// configured (`LayerExists`) or the origin or destination slot does not
    /// exist (`LayerDoesNotExist`).
    pub fn move_layer(&mut self, from_z: usize, to_z: usize) -> (r: TilemapResult<()>)
        requires
            old(self).wf(),
        ensures
            final(self).wf(),
            final(self).same_config(*old(self)),
            final(self).chunk_events == old(self).chunk_events,
            final(self).spawned == old(self).spawned,
            r is Err <==> ((to_z < old(self).layers@.len() && old(self).layers@[to_z as int]
                is Some) || from_z >= old(self).layers@.len() || old(self).layers@[from_z as int]
                is None || to_z >= old(self).layers@.len()),
            r is Err ==> *final(self) == *old(self),
            match r {
                Err(e) => e.0 == (if to_z < old(self).layers@.len() && old(
                    self,
                ).layers@[to_z as int] is Some {
                    ErrorKind::LayerExists(to_z)
                } else if from_z >= old(self).layers@.len() || old(self).layers@[from_z as int]
                    is None {
                    ErrorKind::LayerDoesNotExist(from_z)
                } else {
                    ErrorKind::LayerDoesNotExist(to_z)
                }),
                Ok(()) => true,
            },
            r is Ok ==> {
                &&& final(self).layers@ == old(self).layers@.update(
                    to_z as int,
                    old(self).layers@[from_z as int],
                ).update(from_z as int, None)
                &&& final(self).chunks_map().dom() == old(self).chunks_map().dom()
                &&& forall|q: Point2|
                    old(self).chunks_map().dom().contains(q)
                        ==> (#[trigger] final(self).chunks_map()[q]).entity == old(
                        self,
                    ).chunks_map()[q].entity
                &&& forall|p: Point2, zq: int|
                    #[trigger] final(self).get_tile_spec(p, zq) == (if zq == to_z {
                        old(self).get_tile_spec(p, from_z as int)
                    } else if zq == from_z {
                        None
                    } else {
                        old(self).get_tile_spec(p, zq)
                    })
            },
    {
        if to_z < self.layers.len() {
            if self.layers[to_z].is_some() {
                return Err(TilemapError(ErrorKind::LayerExists(to_z)));
            }
        }
        if from_z >= self.layers.len() {
            return Err(TilemapError(ErrorKind::LayerDoesNotExist(from_z)));
        }
        if self.layers[from_z].is_none() {
            return Err(TilemapError(ErrorKind::LayerDoesNotExist(from_z)));
        }
        if to_z >= self.layers.len() {
            return Err(TilemapError(ErrorKind::LayerDoesNotExist(to_z)));
        }
        let moved = self.layers[from_z];
        self.layers.set(to_z, moved);
        self.layers.set(from_z, None);
        let ghost n = self.chunks@.len();
        let mut j: usize = 0;
        while j < self.chunks.len()
            invariant
                j <= n,
                n == old(self).chunks@.len(),
                old(self).wf(),
                from_z < old(self).layers@.len(),
                to_z < old(self).layers@.len(),
                from_z != to_z,
                old(self).layers@[from_z as int] is Some,
                old(self).layers@[to_z as int] is None,
                self.same_config(*old(self)),
                self.chunk_events == old(self).chunk_events,
                self.spawned == old(self).spawned,
                self.layers@ == old(self).layers@.update(
                    to_z as int,
                    old(self).layers@[from_z as int],
                ).update(from_z as int, None),
                self.chunks@.len() == n,
                forall|i: int|
                    0 <= i < n ==> (#[trigger] self.chunks@[i]).0 == old(self).chunks@[i].0,
                forall|i: int|
                    j <= i < n ==> (#[trigger] self.chunks@[i]).1 == old(self).chunks@[i].1,
                forall|i: int|
                    0 <= i < j ==> {
                        let oc = old(self).chunks@[i].1;
                        let nc = (#[trigger] self.chunks@[i]).1;
                        &&& nc.point == oc.point
                        &&& nc.mesh == oc.mesh
                        &&& nc.entity == oc.entity
                        &&& nc.depth_count() == oc.depth_count()
                        &&& nc.rep_wf()
                        &&& nc.z_layers@[0]@ == oc.z_layers@[0]@.update(
                            to_z as int,
                            oc.z_layers@[0]@[from_z as int],
                        ).update(from_z as int, None)
                    },
            decreases n - j,
        {
            let ghost pre = self.chunks@;
            proof {
                assert(old(self).chunk_entry_wf(
                    (old(self).chunks@[j as int]).0,
                    old(self).chunks@[j as int].1,
                ));
            }
            let (cp, mut c) = self.chunks.remove(j);
            proof {
                let oc = old(self).chunks@[j as int].1;
                assert(oc.row_len(0) == old(self).layers@.len());
                assert(oc.slot_view(0, to_z as int) is None);
                assert(oc.z_layers@[0]@[to_z as int] is None);
            }
            c.move_sprite_layer(from_z, to_z);
            proof {
                let oc = old(self).chunks@[j as int].1;
                assert(c.z_layers@[0]@ == oc.z_layers@[0]@.update(
                    to_z as int,
                    oc.z_layers@[0]@[from_z as int],
                ).update(from_z as int, None));
            }
            self.chunks.insert(j, (cp, c));
            proof {
                assert(self.chunks@ =~= pre.update(j as int, (cp, c)));
            }
            j += 1;
        }
        proof {
            let s_old = old(self).chunks@;
            let s_new = self.chunks@;
            assert forall|i1: int, i2: int| 0 <= i1 < i2 < s_new.len() implies (
            #[trigger] s_new[i1]).0 != (#[trigger] s_new[i2]).0 by {
                assert((s_old[i1]).0 != (s_old[i2]).0);
            }
            lemma_assoc_same_keys(s_old, s_new);
            assert forall|i: int| 0 <= i < s_new.len() implies self.chunk_entry_wf(
                (#[trigger] s_new[i]).0,
                s_new[i].1,
            ) by {
                let oc = s_old[i].1;
                let nc = s_new[i].1;
                assert(old(self).chunk_entry_wf((s_old[i]).0, oc));
                assert forall|sl: int| 0 <= sl < self.layers@.len() implies match (
                #[trigger] nc.slot_view(0, sl), self.layers@[sl]) {
                    (Some(v), Some(tl)) => layer_v_kind(v) == tl.kind && layer_v_covers(
                        v,
                        self.area(),
                    ),
                    (None, None) => true,
                    _ => false,
                } by {
                    if sl == to_z {
                        assert(nc.z_layers@[0]@[sl] == oc.z_layers@[0]@[from_z as int]);
                        assert(nc.slot_view(0, sl) == oc.slot_view(0, from_z as int));
                        assert(self.area() == old(self).area());
                    } else if sl == from_z {
                        assert(nc.z_layers@[0]@[sl] is None);
                    } else {
                        assert(nc.z_layers@[0]@[sl] == oc.z_layers@[0]@[sl]);
                        assert(nc.slot_view(0, sl) == oc.slot_view(0, sl));
                        assert(self.layers@[sl] == old(self).layers@[sl]);
                    }
                }
            }
            assert forall|p: Point2, zq: int| #[trigger] self.get_tile_spec(p, zq) == (if zq
                == to_z {
                old(self).get_tile_spec(p, from_z as int)
            } else if zq == from_z {
                None
            } else {
                old(self).get_tile_spec(p, zq)
            }) by {
                let cp = self.chunk_point_of(p);
                assert(cp == old(self).chunk_point_of(p));
                lemma_assoc_map_dom(s_old, cp);
                lemma_assoc_map_dom(s_new, cp);
                if old(self).chunks_map().dom().contains(cp) {
                    let jw = choose|jw: int| 0 <= jw < s_old.len() && (#[trigger] s_old[jw]).0
                        == cp;
                    lemma_assoc_map_get(s_old, jw);
                    lemma_assoc_map_get(s_new, jw);
                    let oc = s_old[jw].1;
                    let nc = s_new[jw].1;
                    assert(old(self).chunk_entry_wf((s_old[jw]).0, oc));
                    if 0 <= zq < oc.row_len(0) {
                        if zq == to_z {
                            assert(nc.z_layers@[0]@[zq] == oc.z_layers@[0]@[from_z as int]);
                        } else if zq == from_z {
                            assert(nc.z_layers@[0]@[zq] is None);
                        } else {
                            assert(nc.z_layers@[0]@[zq] == oc.z_layers@[0]@[zq]);
                        }
                    }
                }
            }
            assert forall|q: Point2| old(self).chunks_map().dom().contains(q) implies (
            #[trigger] self.chunks_map()[q]).entity == old(self).chunks_map()[q].entity by {
                lemma_assoc_map_dom(s_old, q);
                let jw = choose|jw: int| 0 <= jw < s_old.len() && (#[trigger] s_old[jw]).0 == q;
                lemma_assoc_map_get(s_old, jw);
                lemma_assoc_map_get(s_new, jw);
            }
        }
        Ok(())
    }

    /// Removes a layer from the tilemap and every chunk: destructive, the
    /// layer's tiles are not recoverable.  A z-order with no slot is a
    /// silent no-op.
    pub fn remove_layer(&mut self, z: usize)
        requires
            old(self).wf(),
        ensures
            final(self).wf(),
            final(self).same_config(*old(self)),
            final(self).chunk_events == old(self).chunk_events,
            final(self).spawned == old(self).spawned,
            z >= old(self).layers@.len() ==> *final(self) == *old(self),
            z < old(self).layers@.len() ==> {
                &&& final(self).layers@ == old(self).layers@.update(z as int, None)
                &&& final(self).chunks_map().dom() == old(self).chunks_map().dom()
                &&& forall|q: Point2|
                    old(self).chunks_map().dom().contains(q)
                        ==> (#[trigger] final(self).chunks_map()[q]).entity == old(
                        self,
                    ).chunks_map()[q].entity
                &&& forall|p: Point2, zq: int|
                    #[trigger] final(self).get_tile_spec(p, zq) == (if zq == z {
                        None
                    } else {
                        old(self).get_tile_spec(p, zq)
                    })
            },
    {
        if z >= self.layers.len() {
            return ;
        }
        self.layers.set(z, None);
        let ghost n = self.chunks@.len();
        let mut j: usize = 0;
        while j < self.chunks.len()
            invariant
                j <= n,
                n == old(self).chunks@.len(),
                old(self).wf(),
                z < old(self).layers@.len(),
                self.same_config(*old(self)),
                self.chunk_events == old(self).chunk_events,
                self.spawned == old(self).spawned,
                self.layers@ == old(self).layers@.update(z as int, None),
                self.chunks@.len() == n,
                forall|i: int|
                    0 <= i < n ==> (#[trigger] self.chunks@[i]).0 == old(self).chunks@[i].0,
                forall|i: int|
                    j <= i < n ==> (#[trigger] self.chunks@[i]).1 == old(self).chunks@[i].1,
                forall|i: int|
                    0 <= i < j ==> chunk_frame_except_slot(
                        old(self).chunks@[i].1,
                        (#[trigger] self.chunks@[i]).1,
                        z as int,
                    ),
                forall|i: int| 0 <= i < j ==> (#[trigger] self.chunks@[i]).1.rep_wf(),
                forall|i: int|
                    0 <= i < j ==> #[trigger] self.chunks@[i].1.z_layers@[0]@[z as int] is None,
            decreases n - j,
        {
            let ghost pre = self.chunks@;
            proof {
                assert(old(self).chunk_entry_wf(
                    (old(self).chunks@[j as int]).0,
                    old(self).chunks@[j as int].1,
                ));
            }
            let (cp, mut c) = self.chunks.remove(j);
            c.remove_layer(z);
            self.chunks.insert(j, (cp, c));
            proof {
                assert(self.chunks@ =~= pre.update(j as int, (cp, c)));
            }
            j += 1;
        }
        proof {
            let s_old = old(self).chunks@;
            let s_new = self.chunks@;
            assert forall|i1: int, i2: int| 0 <= i1 < i2 < s_new.len() implies (
            #[trigger] s_new[i1]).0 != (#[trigger] s_new[i2]).0 by {
                assert((s_old[i1]).0 != (s_old[i2]).0);
            }
            lemma_assoc_same_keys(s_old, s_new);
            assert forall|i: int| 0 <= i < s_new.len() implies self.chunk_entry_wf(
                (#[trigger] s_new[i]).0,
                s_new[i].1,
            ) by {
                let oc = s_old[i].1;
                let nc = s_new[i].1;
                assert(old(self).chunk_entry_wf((s_old[i]).0, oc));
                assert(chunk_frame_except_slot(oc, nc, z as int));
                assert forall|sl: int| 0 <= sl < self.layers@.len() implies match (
                #[trigger] nc.slot_view(0, sl), self.layers@[sl]) {
                    (Some(v), Some(tl)) => layer_v_kind(v) == tl.kind && layer_v_covers(
                        v,
                        self.area(),
                    ),
                    (None, None) => true,
                    _ => false,
                } by {
                    if sl != z {
                        assert(nc.z_layers@[0]@[sl] == oc.z_layers@[0]@[sl]);
                        assert(nc.slot_view(0, sl) == oc.slot_view(0, sl));
                        assert(self.layers@[sl] == old(self).layers@[sl]);
                        assert(self.area() == old(self).area());
                    } else {
                        assert(nc.z_layers@[0]@[sl] is None);
                    }
                }
            }
            assert forall|p: Point2, zq: int| #[trigger] self.get_tile_spec(p, zq) == (if zq == z {
                None
            } else {
                old(self).get_tile_spec(p, zq)
            }) by {
                let cp = self.chunk_point_of(p);
                assert(cp == old(self).chunk_point_of(p));
                lemma_assoc_map_dom(s_old, cp);
                lemma_assoc_map_dom(s_new, cp);
                if old(self).chunks_map().dom().contains(cp) {
                    let jw = choose|jw: int| 0 <= jw < s_old.len() && (#[trigger] s_old[jw]).0
                        == cp;
                    lemma_assoc_map_get(s_old, jw);
                    lemma_assoc_map_get(s_new, jw);
                    let oc = s_old[jw].1;
                    let nc = s_new[jw].1;
                    assert(old(self).chunk_entry_wf((s_old[jw]).0, oc));
                    if 0 <= zq < oc.row_len(0) {
                        if zq == z {
                            assert(nc.z_layers@[0]@[zq] is None);
                        } else {
                            assert(nc.z_layers@[0]@[zq] == oc.z_layers@[0]@[zq]);
                        }
                    }
                }
            }
            assert forall|q: Point2| old(self).chunks_map().dom().contains(q) implies (
            #[trigger] self.chunks_map()[q]).entity == old(self).chunks_map()[q].entity by {
                lemma_assoc_map_dom(s_old, q);
                let jw = choose|jw: int| 0 <= jw < s_old.len() && (#[trigger] s_old[jw]).0 == q;
                lemma_assoc_map_get(s_old, jw);
                lemma_assoc_map_get(s_new, jw);
            }
        }
    }
}


/// The stored result of applying one edit tile: nothing for a sentinel tint,
/// else the tile's sprite index and tint.
pub open spec fn written_tile(t: Tile) -> Option<RawTile> {
    if t.tint.a == 0 {
        None
    } else {
        Some(RawTile { index: t.sprite_index, color: t.tint })
    }
}

/// The last tile of a batch that edits position `p` on z-order `z`, if any:
/// within one batch, the later write wins.
pub open spec fn last_edit(tiles: Seq<Tile>, p: Point2, z: int) -> Option<Tile>
    decreases tiles.len(),
{
    if tiles.len() == 0 {
        None
    } else if tiles.last().point == p && tiles.last().z_order == z {
        Some(tiles.last())
    } else {
        last_edit(tiles.drop_last(), p, z)
    }
}

/// The distinct z-orders of a batch, in order of first occurrence.
pub open spec fn distinct_zs(tiles: Seq<Tile>) -> Seq<usize>
    decreases tiles.len(),
{
    if tiles.len() == 0 {
        Seq::empty()
    } else {
        let rest = distinct_zs(tiles.drop_last());
        if rest.contains(tiles.last().z_order) {
            rest
        } else {
            rest.push(tiles.last().z_order)
        }
    }
}

/// Whether a `Modified` event's layer list names the z-order `z`.
pub open spec fn names_z(layers: Seq<(usize, Option<u64>)>, z: usize) -> bool {
    exists|jj: int| 0 <= jj < layers.len() && (#[trigger] layers[jj]).0 == z
}

/// Whether some tile of a batch targets the z-order `z`.
pub open spec fn batch_uses_z(tiles: Seq<Tile>, z: usize) -> bool {
    exists|i: int| 0 <= i < tiles.len() && (#[trigger] tiles[i]).z_order == z
}

/// Whether an event's entity handle is attached to some chunk of the map,
/// or absent.
pub open spec fn entity_attached(tm: Tilemap, ent: Option<u64>) -> bool {
    ent is None || (exists|q: Point2|
        tm.chunks_map().dom().contains(q) && (#[trigger] tm.chunks_map()[q]).entity == ent)
}

/// The distinct z-orders of a batch are exactly the z-orders its tiles use.
pub proof fn lemma_distinct_zs_contains(tiles: Seq<Tile>, z: usize)
    ensures
        distinct_zs(tiles).contains(z) <==> (exists|i: int|
            0 <= i < tiles.len() && (#[trigger] tiles[i]).z_order == z),
    decreases tiles.len(),
{
    if tiles.len() > 0 {
        let rest = tiles.drop_last();
        lemma_distinct_zs_contains(rest, z);
        if tiles.last().z_order == z {
            assert((tiles[tiles.len() - 1]).z_order == z);
            if !distinct_zs(rest).contains(z) {
                let d = distinct_zs(tiles);
                assert(d.last() == z);
                assert(d.contains(z));
            }
        } else {
            if distinct_zs(tiles).contains(z) {
                if !distinct_zs(rest).contains(z) {
                    let iw = choose|iw: int|
                        0 <= iw < distinct_zs(tiles).len() && distinct_zs(tiles)[iw] == z;
                    assert(distinct_zs(tiles)[iw] == z);
                }
                let i = choose|i: int| 0 <= i < rest.len() && (#[trigger] rest[i]).z_order == z;
                assert((tiles[i]).z_order == z);
            }
            if exists|i: int| 0 <= i < tiles.len() && (#[trigger] tiles[i]).z_order == z {
                let i = choose|i: int| 0 <= i < tiles.len() && (#[trigger] tiles[i]).z_order == z;
                assert(i != tiles.len() - 1);
                assert((rest[i]).z_order == z);
                if !distinct_zs(rest).contains(z) {
                } else {
                    let iw = choose|iw: int|
                        0 <= iw < distinct_zs(rest).len() && distinct_zs(rest)[iw] == z;
                    if !distinct_zs(rest).contains(tiles.last().z_order) {
                        assert(distinct_zs(tiles)[iw] == z);
                    } else {
                        assert(distinct_zs(tiles)[iw] == z);
                    }
                }
            }
        }
    }
}

/// The distinct z-orders of a batch carry no duplicates.
pub proof fn lemma_distinct_zs_nodup(tiles: Seq<Tile>)
    ensures
        forall|j1: int, j2: int|
            0 <= j1 < j2 < distinct_zs(tiles).len() ==> distinct_zs(tiles)[j1] != distinct_zs(
                tiles,
            )[j2],
    decreases tiles.len(),
{
    if tiles.len() > 0 {
        let rest = tiles.drop_last();
        lemma_distinct_zs_nodup(rest);
        let d = distinct_zs(tiles);
        let dr = distinct_zs(rest);
        if !dr.contains(tiles.last().z_order) {
            assert forall|j1: int, j2: int| 0 <= j1 < j2 < d.len() implies d[j1] != d[j2] by {
                if j2 == d.len() - 1 {
                    assert(d[j1] == dr[j1]);
                    assert(!dr.contains(d[j2]));
                } else {
                    assert(d[j1] == dr[j1] && d[j2] == dr[j2]);
                }
            }
        }
    }
}

impl Tilemap {
    /// The chunk-local point of a global tile point.
    pub open spec fn local_point_of(self, p: Point2) -> Point2 {
        Point2 {
            x: local_coord(p.x as int, self.chunk_dimensions.width as int) as i32,
            y: local_coord(p.y as int, self.chunk_dimensions.height as int) as i32,
        }
    }

    /// Sorts tiles to the chunks they belong to: validates every tile's
    /// z-order against the layer table, auto-configures a default dense
    /// layer for any unconfigured in-range slot the batch touches, and
    /// remaps every tile to its destination chunk coordinate and chunk-local
    /// point, preserving input order.  On a z-order beyond the table it
    /// fails with `LayerDoesNotExist` before any mutation.
    fn sort_tiles_to_chunks(&mut self, tiles: &Vec<Tile>) -> (r: TilemapResult<
        Vec<(Point2, Tile)>,
    >)
        requires
            old(self).wf(),
        ensures
            final(self).wf(),
            final(self).same_config(*old(self)),
            final(self).chunk_events == old(self).chunk_events,
            final(self).spawned == old(self).spawned,
            final(self).chunks_map().dom() == old(self).chunks_map().dom(),
            r is Ok <==> (forall|i: int|
                0 <= i < tiles@.len() ==> (#[trigger] tiles@[i]).z_order < old(
                    self,
                ).layers@.len()),
            r is Err ==> *final(self) == *old(self),
            match r {
                Err(e) => exists|i: int|
                    0 <= i < tiles@.len() && (#[trigger] tiles@[i]).z_order >= old(
                        self,
                    ).layers@.len() && e.0 == ErrorKind::LayerDoesNotExist(tiles@[i].z_order),
                Ok(sorted) => {
                    &&& sorted@.len() == tiles@.len()
                    &&& forall|i: int|
                        0 <= i < tiles@.len() ==> (#[trigger] sorted@[i]).0 == old(
                            self,
                        ).chunk_point_of(tiles@[i].point)
                    &&& forall|i: int|
                        0 <= i < tiles@.len() ==> (#[trigger] sorted@[i]).1 == (Tile {
                            point: old(self).local_point_of(tiles@[i].point),
                            ..tiles@[i]
                        })
                },
            },
            r is Ok ==> {
                &&& final(self).layers@.len() == old(self).layers@.len()
                &&& forall|sl: int|
                    0 <= sl < old(self).layers@.len() && old(self).layers@[sl] is Some
                        ==> #[trigger] final(self).layers@[sl] == old(self).layers@[sl]
                &&& forall|sl: int|
                    0 <= sl < old(self).layers@.len() ==> #[trigger] final(self).layers@[sl]
                        == old(self).layers@[sl] || final(self).layers@[sl] == Some(
                        TilemapLayer { kind: LayerKind::Dense },
                    )
                &&& forall|i: int|
                    0 <= i < tiles@.len() ==> final(self).layers@[(#[trigger] tiles@[i]).z_order
                        as int] is Some
                &&& forall|p: Point2, zq: int|
                    #[trigger] final(self).get_tile_spec(p, zq) == old(self).get_tile_spec(p, zq)
                &&& forall|q: Point2|
                    old(self).chunks_map().dom().contains(q)
                        ==> (#[trigger] final(self).chunks_map()[q]).entity == old(
                        self,
                    ).chunks_map()[q].entity
            },
    {
        let mut i: usize = 0;
        while i < tiles.len()
            invariant
                i <= tiles@.len(),
                *self == *old(self),
                old(self).wf(),
                forall|ii: int|
                    0 <= ii < i ==> (#[trigger] tiles@[ii]).z_order < self.layers@.len(),
            decreases tiles@.len() - i,
        {
            if tiles[i].z_order >= self.layers.len() {
                return Err(TilemapError(ErrorKind::LayerDoesNotExist(tiles[i].z_order)));
            }
            i += 1;
        }
        i = 0;
        while i < tiles.len()
            invariant
                i <= tiles@.len(),
                old(self).wf(),
                self.wf(),
                self.same_config(*old(self)),
                self.chunk_events == old(self).chunk_events,
                self.spawned == old(self).spawned,
                self.chunks_map().dom() == old(self).chunks_map().dom(),
                self.layers@.len() == old(self).layers@.len(),
                forall|ii: int|
                    0 <= ii < tiles@.len() ==> (#[trigger] tiles@[ii]).z_order < old(
                        self,
                    ).layers@.len(),
                forall|sl: int|
                    0 <= sl < old(self).layers@.len() && old(self).layers@[sl] is Some
                        ==> #[trigger] self.layers@[sl] == old(self).layers@[sl],
                forall|sl: int|
                    0 <= sl < old(self).layers@.len() ==> #[trigger] self.layers@[sl] == old(
                        self,
                    ).layers@[sl] || self.layers@[sl] == Some(
                        TilemapLayer { kind: LayerKind::Dense },
                    ),
                forall|ii: int|
                    0 <= ii < i ==> self.layers@[(#[trigger] tiles@[ii]).z_order as int] is Some,
                forall|p: Point2, zq: int|
                    #[trigger] self.get_tile_spec(p, zq) == old(self).get_tile_spec(p, zq),
                forall|q: Point2|
                    old(self).chunks_map().dom().contains(q)
                        ==> (#[trigger] self.chunks_map()[q]).entity == old(
                        self,
                    ).chunks_map()[q].entity,
            decreases tiles@.len() - i,
        {
            let z = tiles[i].z_order;
            if self.layers[z].is_none() {
                let ghost mid = *self;
                match self.add_layer(TilemapLayer { kind: LayerKind::Dense }, z) {
                    Ok(()) => {
                        proof {
                            assert forall|p: Point2, zq: int| #[trigger] self.get_tile_spec(p, zq)
                                == old(self).get_tile_spec(p, zq) by {
                                assert(self.get_tile_spec(p, zq) == mid.get_tile_spec(p, zq));
                            }
                            assert forall|q: Point2| old(self).chunks_map().dom().contains(q)
                                implies (#[trigger] self.chunks_map()[q]).entity == old(
                            self,
                            ).chunks_map()[q].entity by {
                                assert(mid.chunks_map().dom().contains(q));
                                assert(self.chunks_map()[q].entity == mid.chunks_map()[q].entity);
                            }
                        }
                    },
                    Err(e) => {
                        proof {
                            assert(false);
                        }
                        return Err(e);
                    },
                }
            }
            i += 1;
        }
        let mut sorted: Vec<(Point2, Tile)> = Vec::new();
        i = 0;
        while i < tiles.len()
            invariant
                i <= tiles@.len(),
                self.wf(),
                sorted@.len() == i,
                self.chunk_dimensions == old(self).chunk_dimensions,
                forall|ii: int|
                    0 <= ii < i ==> (#[trigger] sorted@[ii]).0 == old(self).chunk_point_of(
                        tiles@[ii].point,
                    ),
                forall|ii: int|
                    0 <= ii < i ==> (#[trigger] sorted@[ii]).1 == (Tile {
                        point: old(self).local_point_of(tiles@[ii].point),
                        ..tiles@[ii]
                    }),
            decreases tiles@.len() - i,
        {
            let t = tiles[i];
            let cp = point_to_chunk_point(t.point, self.chunk_dimensions);
            let lp = point_to_local_point(t.point, cp, self.chunk_dimensions);
            sorted.push(
                (cp, Tile { point: lp, sprite_index: t.sprite_index, z_order: t.z_order, tint: t.tint }),
            );
            i += 1;
        }
        Ok(sorted)
    }
}


impl Tilemap {
    /// The local linear index of any point lies inside the chunk area.
    proof fn lemma_local_index_bounds(self, p: Point2)
        requires
            self.wf(),
        ensures
            0 <= self.local_index_of(p) < self.area(),
    {
        let w = self.chunk_dimensions.width as int;
        let h = self.chunk_dimensions.height as int;
        lemma_mod_bound(p.x as int + w / 2, w);
        lemma_mod_bound(p.y as int + h / 2, h);
        assert(0 <= local_coord(p.y as int, h) * w + local_coord(p.x as int, w) < w * h)
            by (nonlinear_arith)
            requires
                0 <= local_coord(p.x as int, w) < w,
                0 <= local_coord(p.y as int, h) < h,
                1 <= w,
                1 <= h,
        ;
    }

    /// Applies an already-sorted batch of edits tile by tile, in input
    /// order, and emits exactly one `Modified` event naming each z-order the
    /// batch touches, in order of first occurrence.  Within the batch the
    /// later write to a cell wins; reads elsewhere are untouched.
    fn apply_batch(&mut self, sorted: &Vec<(Point2, Tile)>, Ghost(orig): Ghost<Seq<Tile>>)
        requires
            old(self).wf(),
            orig.len() == sorted@.len(),
            forall|i: int|
                0 <= i < orig.len() ==> (#[trigger] sorted@[i]).0 == old(self).chunk_point_of(
                    orig[i].point,
                ),
            forall|i: int|
                0 <= i < orig.len() ==> (#[trigger] sorted@[i]).1 == (Tile {
                    point: old(self).local_point_of(orig[i].point),
                    ..orig[i]
                }),
            forall|i: int|
                0 <= i < orig.len() ==> (#[trigger] orig[i]).z_order < old(self).layers@.len()
                    && old(self).layers@[orig[i].z_order as int] is Some,
            forall|i: int|
                0 <= i < orig.len() ==> old(self).chunks_map().dom().contains(
                    (#[trigger] sorted@[i]).0,
                ),
        ensures
            final(self).wf(),
            final(self).same_config(*old(self)),
            final(self).layers == old(self).layers,
            final(self).spawned == old(self).spawned,
            final(self).chunks_map().dom() == old(self).chunks_map().dom(),
            forall|q: Point2|
                old(self).chunks_map().dom().contains(q)
                    ==> (#[trigger] final(self).chunks_map()[q]).entity == old(
                    self,
                ).chunks_map()[q].entity,
            forall|p: Point2, zq: int|
                #[trigger] final(self).get_tile_spec(p, zq) == match last_edit(orig, p, zq) {
                    Some(t) => written_tile(t),
                    None => old(self).get_tile_spec(p, zq),
                },
            final(self).chunk_events@.len() == old(self).chunk_events@.len() + 1,
            final(self).chunk_events@.take(old(self).chunk_events@.len() as int) == old(
                self,
            ).chunk_events@,
            (final(self).chunk_events@.last() matches TilemapChunkEvent::Modified { layers }
                && layers@.len() == distinct_zs(orig).len() && (forall|j: int|
                0 <= j < layers@.len() ==> (#[trigger] layers@[j]).0 == distinct_zs(orig)[j]) && (
            forall|j: int|
                0 <= j < layers@.len() ==> entity_attached(
                    *final(self),
                    (#[trigger] layers@[j]).1,
                ))),
    {
        let mut event_layers: Vec<(usize, Option<u64>)> = Vec::new();
        let mut k: usize = 0;
        proof {
            assert(orig.take(0) =~= Seq::<Tile>::empty());
        }
        while k < sorted.len()
            invariant
                k <= orig.len(),
                orig.len() == sorted@.len(),
                old(self).wf(),
                self.wf(),
                self.same_config(*old(self)),
                self.layers == old(self).layers,
                self.spawned == old(self).spawned,
                self.chunk_events == old(self).chunk_events,
                self.chunks_map().dom() == old(self).chunks_map().dom(),
                forall|i: int|
                    0 <= i < orig.len() ==> (#[trigger] sorted@[i]).0 == old(self).chunk_point_of(
                        orig[i].point,
                    ),
                forall|i: int|
                    0 <= i < orig.len() ==> (#[trigger] sorted@[i]).1 == (Tile {
                        point: old(self).local_point_of(orig[i].point),
                        ..orig[i]
                    }),
                forall|i: int|
                    0 <= i < orig.len() ==> (#[trigger] orig[i]).z_order < old(self).layers@.len()
                        && old(self).layers@[orig[i].z_order as int] is Some,
                forall|i: int|
                    0 <= i < orig.len() ==> old(self).chunks_map().dom().contains(
                        (#[trigger] sorted@[i]).0,
                    ),
                forall|q: Point2|
                    old(self).chunks_map().dom().contains(q)
                        ==> (#[trigger] self.chunks_map()[q]).entity == old(
                        self,
                    ).chunks_map()[q].entity,
                forall|p: Point2, zq: int|
                    #[trigger] self.get_tile_spec(p, zq) == match last_edit(
                        orig.take(k as int),
                        p,
                        zq,
                    ) {
                        Some(t) => written_tile(t),
                        None => old(self).get_tile_spec(p, zq),
                    },
                event_layers@.len() == distinct_zs(orig.take(k as int)).len(),
                forall|j: int|
                    0 <= j < event_layers@.len() ==> (#[trigger] event_layers@[j]).0
                        == distinct_zs(orig.take(k as int))[j],
                forall|j: int|
                    0 <= j < event_layers@.len() ==> entity_attached(
                        *self,
                        (#[trigger] event_layers@[j]).1,
                    ),
            decreases orig.len() - k,
        {
            let (cp, t) = sorted[k];
            let ghost ot = orig[k as int];
            let ghost prev = distinct_zs(orig.take(k as int));
            proof {
                assert(sorted@[k as int].0 == cp && sorted@[k as int].1 == t);
            }
            let j = match self.find_chunk(cp) {
                Some(j) => j,
                None => {
                    proof {
                        lemma_assoc_map_dom(self.chunks@, cp);
                        assert(false);
                    }
                    return ;
                },
            };
            proof {
                lemma_assoc_map_get(self.chunks@, j as int);
            }
            let mut seen = false;
            let mut q: usize = 0;
            while q < event_layers.len()
                invariant
                    q <= event_layers@.len(),
                    seen <==> (exists|jj: int|
                        0 <= jj < q && (#[trigger] event_layers@[jj]).0 == t.z_order),
                decreases event_layers@.len() - q,
            {
                if event_layers[q].0 == t.z_order {
                    seen = true;
                    proof {
                        assert((event_layers@[q as int]).0 == t.z_order);
                    }
                }
                q += 1;
            }
            if !seen {
                let ent = self.chunks[j].1.get_entity();
                event_layers.push((t.z_order, ent));
                proof {
                    assert((self.chunks@[j as int]).0 == cp);
                    assert(self.chunks_map()[cp].entity == ent);
                    assert(entity_attached(*self, ent));
                }
            }
            proof {
                assert(orig.take(k + 1).drop_last() =~= orig.take(k as int));
                assert(orig.take(k + 1).last() == ot);
                assert(t.z_order == ot.z_order);
                if seen {
                    let jj = choose|jj: int|
                        0 <= jj < prev.len() && (#[trigger] event_layers@[jj]).0 == t.z_order;
                    assert(prev[jj] == t.z_order);
                    assert(prev.contains(ot.z_order));
                    assert(distinct_zs(orig.take(k + 1)) == prev);
                } else {
                    if prev.contains(ot.z_order) {
                        let jj = choose|jj: int| 0 <= jj < prev.len() && prev[jj] == ot.z_order;
                        assert((event_layers@[jj]).0 == ot.z_order);
                        assert(false);
                    }
                    assert(distinct_zs(orig.take(k + 1)) == prev.push(ot.z_order));
                }
            }
            proof {
                old(self).lemma_local_index_bounds(ot.point);
                old(self).lemma_area_bound();
                lemma_mod_bound(
                    ot.point.x as int + self.chunk_dimensions.width as int / 2,
                    self.chunk_dimensions.width as int,
                );
                lemma_mod_bound(
                    ot.point.y as int + self.chunk_dimensions.height as int / 2,
                    self.chunk_dimensions.height as int,
                );
            }
            let index = self.chunk_dimensions.encode_point_unchecked(t.point);
            proof {
                assert(index == old(self).local_index_of(ot.point));
            }
            let ghost pre = self.chunks@;
            let ghost mid = *self;
            let (pkey, mut c) = self.chunks.remove(j);
            let ghost oc = c;
            c.set_tile(index, 0, t.z_order, RawTile { index: t.sprite_index, color: t.tint });
            self.chunks.insert(j, (pkey, c));
            proof {
                assert(self.chunks@ =~= pre.update(j as int, (pkey, c)));
                let s_new = self.chunks@;
                assert forall|i1: int, i2: int| 0 <= i1 < i2 < s_new.len() implies (
                #[trigger] s_new[i1]).0 != (#[trigger] s_new[i2]).0 by {
                    assert((pre[i1]).0 != (pre[i2]).0);
                }
                lemma_assoc_same_keys(pre, s_new);
                assert(mid.chunk_entry_wf((pre[j as int]).0, oc));
                let zt = t.z_order as int;
                assert(oc.slot_view(0, zt) is Some);
                assert forall|i: int| 0 <= i < s_new.len() implies self.chunk_entry_wf(
                    (#[trigger] s_new[i]).0,
                    s_new[i].1,
                ) by {
                    if i == j {
                        assert(mid.chunk_entry_wf((pre[i]).0, pre[i].1));
                        assert forall|sl: int| 0 <= sl < self.layers@.len() implies match (
                        #[trigger] c.slot_view(0, sl), self.layers@[sl]) {
                            (Some(v), Some(tl)) => layer_v_kind(v) == tl.kind && layer_v_covers(
                                v,
                                self.area(),
                            ),
                            (None, None) => true,
                            _ => false,
                        } by {
                            if sl != zt {
                                assert(c.z_layers@[0]@[sl] == oc.z_layers@[0]@[sl]);
                                assert(c.slot_view(0, sl) == oc.slot_view(0, sl));
                            } else {
                                assert(c.slot_view(0, zt) == match oc.slot_view(0, zt) {
                                    Some(v) => Some(
                                        layer_v_set(
                                            v,
                                            index,
                                            RawTile { index: t.sprite_index, color: t.tint },
                                        ),
                                    ),
                                    None => None,
                                });
                            }
                        }
                    } else {
                        assert(s_new[i] == pre[i]);
                        assert(mid.chunk_entry_wf((pre[i]).0, pre[i].1));
                    }
                }
                lemma_assoc_map_get(s_new, j as int);
                lemma_assoc_map_get(pre, j as int);
                assert forall|qq: Point2| old(self).chunks_map().dom().contains(qq) implies (
                #[trigger] self.chunks_map()[qq]).entity == old(self).chunks_map()[qq].entity by {
                    lemma_assoc_map_dom(pre, qq);
                    let jw = choose|jw: int| 0 <= jw < pre.len() && (#[trigger] pre[jw]).0 == qq;
                    lemma_assoc_map_get(pre, jw);
                    lemma_assoc_map_get(s_new, jw);
                    assert(mid.chunks_map()[qq].entity == old(self).chunks_map()[qq].entity);
                }
                assert forall|jj: int| 0 <= jj < event_layers@.len() implies entity_attached(
                    *self,
                    (#[trigger] event_layers@[jj]).1,
                ) by {
                    assert(entity_attached(mid, (event_layers@[jj]).1));
                    if (event_layers@[jj]).1 is Some {
                        let qw = choose|qw: Point2|
                            mid.chunks_map().dom().contains(qw) && (
                            #[trigger] mid.chunks_map()[qw]).entity == (event_layers@[jj]).1;
                        lemma_assoc_map_dom(pre, qw);
                        let jw = choose|jw: int|
                            0 <= jw < pre.len() && (#[trigger] pre[jw]).0 == qw;
                        lemma_assoc_map_get(pre, jw);
                        lemma_assoc_map_get(s_new, jw);
                        assert(self.chunks_map()[qw].entity == (event_layers@[jj]).1);
                    }
                }
                let w = self.chunk_dimensions.width as int;
                let h = self.chunk_dimensions.height as int;
                assert forall|p: Point2, zq: int| #[trigger] self.get_tile_spec(p, zq) == match
                    last_edit(orig.take(k + 1), p, zq) {
                    Some(t2) => written_tile(t2),
                    None => old(self).get_tile_spec(p, zq),
                } by {
                    assert(mid.get_tile_spec(p, zq) == match last_edit(orig.take(k as int), p, zq) {
                        Some(t2) => written_tile(t2),
                        None => old(self).get_tile_spec(p, zq),
                    });
                    let cpp = self.chunk_point_of(p);
                    assert(cpp == mid.chunk_point_of(p));
                    lemma_assoc_map_dom(pre, cpp);
                    lemma_assoc_map_dom(s_new, cpp);
                    if p == ot.point && zq == zt {
                        assert(cpp == cp);
                        lemma_assoc_map_get(s_new, j as int);
                        let idxp = self.local_index_of(p) as usize;
                        assert(idxp == index);
                        match oc.slot_view(0, zt) {
                            Some(v) => {
                                assert(self.get_tile_spec(p, zq) == layer_v_get(
                                    layer_v_set(
                                        v,
                                        index,
                                        RawTile { index: t.sprite_index, color: t.tint },
                                    ),
                                    index,
                                ));
                                assert(layer_v_covers(v, mid.area()));
                            },
                            None => {
                                assert(false);
                            },
                        }
                    } else {
                        assert(last_edit(orig.take(k + 1), p, zq) == last_edit(
                            orig.take(k as int),
                            p,
                            zq,
                        ));
                        if self.chunks_map().dom().contains(cpp) {
                            let jw = choose|jw: int|
                                0 <= jw < pre.len() && (#[trigger] pre[jw]).0 == cpp;
                            lemma_assoc_map_get(pre, jw);
                            lemma_assoc_map_get(s_new, jw);
                            if jw == j {
                                let idxp = mid.local_index_of(p) as usize;
                                mid.lemma_local_index_bounds(p);
                                if zq == zt && idxp == index {
                                    lemma_chunk_coord_fits(p.x as int, w);
                                    lemma_chunk_coord_fits(p.y as int, h);
                                    lemma_chunk_coord_fits(ot.point.x as int, w);
                                    lemma_chunk_coord_fits(ot.point.y as int, h);
                                    lemma_decomposition_injective(p, ot.point, w, h);
                                    assert(false);
                                } else {
                                    if 0 <= zq < oc.row_len(0) {
                                        if zq != zt {
                                            assert(c.z_layers@[0]@[zq] == oc.z_layers@[0]@[zq]);
                                            assert(c.slot_view(0, zq) == oc.slot_view(0, zq));
                                        } else {
                                            match oc.slot_view(0, zt) {
                                                Some(v) => {
                                                    assert(c.slot_view(0, zt) == Some(
                                                        layer_v_set(
                                                            v,
                                                            index,
                                                            RawTile {
                                                                index: t.sprite_index,
                                                                color: t.tint,
                                                            },
                                                        ),
                                                    ));
                                                    assert(layer_v_get(
                                                        layer_v_set(
                                                            v,
                                                            index,
                                                            RawTile {
                                                                index: t.sprite_index,
                                                                color: t.tint,
                                                            },
                                                        ),
                                                        idxp,
                                                    ) == layer_v_get(v, idxp));
                                                },
                                                None => {},
                                            }
                                        }
                                    }
                                    assert(self.get_tile_spec(p, zq) == mid.get_tile_spec(p, zq));
                                }
                            } else {
                                assert(s_new[jw] == pre[jw]);
                                assert(self.get_tile_spec(p, zq) == mid.get_tile_spec(p, zq));
                            }
                        } else {
                            assert(self.get_tile_spec(p, zq) == mid.get_tile_spec(p, zq));
                        }
                    }
                }
            }
            k += 1;
        }
        proof {
            assert(orig.take(orig.len() as int) =~= orig);
        }
        let ghost done = *self;
        let ghost ev = event_layers@;
        self.chunk_events.push(TilemapChunkEvent::Modified { layers: event_layers });
        proof {
            assert(self.chunk_events@.take(old(self).chunk_events@.len() as int) =~= old(
                self,
            ).chunk_events@);
            assert forall|p: Point2, zq: int| #[trigger] self.get_tile_spec(p, zq) == match
                last_edit(orig, p, zq) {
                Some(t2) => written_tile(t2),
                None => old(self).get_tile_spec(p, zq),
            } by {
                assert(done.get_tile_spec(p, zq) == match last_edit(orig.take(orig.len() as int), p, zq) {
                    Some(t2) => written_tile(t2),
                    None => old(self).get_tile_spec(p, zq),
                });
                assert(self.get_tile_spec(p, zq) == done.get_tile_spec(p, zq));
            }
            assert forall|jj: int| 0 <= jj < ev.len() implies entity_attached(
                *self,
                (#[trigger] ev[jj]).1,
            ) by {
                assert(entity_attached(done, (ev[jj]).1));
                if (ev[jj]).1 is Some {
                    let qw = choose|qw: Point2|
                        done.chunks_map().dom().contains(qw) && (
                        #[trigger] done.chunks_map()[qw]).entity == (ev[jj]).1;
                    assert(self.chunks_map().dom().contains(qw));
                    assert(self.chunks_map()[qw].entity == (ev[jj]).1);
                }
            }
        }
    }
}


/// The tile that clearing one `(point, z_order)` pair applies: a sentinel
/// tint at that position and z-order.
pub open spec fn clear_tile_of(pz: (Point2, usize)) -> Tile {
    Tile { point: pz.0, sprite_index: 0, z_order: pz.1, tint: zero_color() }
}

/// A found last edit is an element of the batch.
pub proof fn lemma_last_edit_element(tiles: Seq<Tile>, p: Point2, z: int)
    ensures
        match last_edit(tiles, p, z) {
            Some(t) => exists|i: int| 0 <= i < tiles.len() && (#[trigger] tiles[i]) == t,
            None => true,
        },
    decreases tiles.len(),
{
    if tiles.len() > 0 {
        if tiles.last().point == p && tiles.last().z_order == z {
            assert(tiles[tiles.len() - 1] == tiles.last());
        } else {
            lemma_last_edit_element(tiles.drop_last(), p, z);
            match last_edit(tiles.drop_last(), p, z) {
                Some(t) => {
                    let i = choose|i: int|
                        0 <= i < tiles.drop_last().len() && (#[trigger] tiles.drop_last()[i]) == t;
                    assert(tiles[i] == t);
                },
                None => {},
            }
        }
    }
}

impl Tilemap {
    /// Materializes an empty chunk at a chunk coordinate if none exists yet;
    /// reads are unaffected because a fresh chunk holds no tiles.
    fn ensure_chunk(&mut self, point: Point2)
        requires
            old(self).wf(),
        ensures
            final(self).wf(),
            final(self).same_config(*old(self)),
            final(self).layers == old(self).layers,
            final(self).chunk_events == old(self).chunk_events,
            final(self).spawned == old(self).spawned,
            final(self).chunks_map().dom() == old(self).chunks_map().dom().insert(point),
            forall|q: Point2|
                old(self).chunks_map().dom().contains(q)
                    ==> (#[trigger] final(self).chunks_map()[q]).entity == old(
                    self,
                ).chunks_map()[q].entity,
            forall|p: Point2, zq: int|
                #[trigger] final(self).get_tile_spec(p, zq) == old(self).get_tile_spec(p, zq),
    {
        if let Some(_j) = self.find_chunk(point) {
            proof {
                lemma_assoc_map_dom(self.chunks@, point);
                assert(final(self).chunks_map().dom() =~= old(self).chunks_map().dom().insert(
                    point,
                ));
            }
            return ;
        }
        proof {
            lemma_assoc_map_dom(self.chunks@, point);
        }
        let kinds = self.layer_kinds();
        proof {
            self.lemma_area_bound();
        }
        let chunk = Chunk::new(point, &kinds, self.chunk_dim3());
        proof {
            lemma_assoc_map_push(self.chunks@, point, chunk);
        }
        self.chunks.push((point, chunk));
        proof {
            let s2 = self.chunks@;
            let s = old(self).chunks@;
            assert forall|i: int| 0 <= i < s2.len() implies self.chunk_entry_wf(
                (#[trigger] s2[i]).0,
                s2[i].1,
            ) by {
                if i < s.len() {
                    assert(s2[i] == s[i]);
                    assert(old(self).chunk_entry_wf(s[i].0, s[i].1));
                } else {
                    assert(s2[i].1 == chunk);
                }
            }
            lemma_assoc_map_get(s2, s2.len() - 1);
            assert forall|q: Point2| old(self).chunks_map().dom().contains(q) implies (
            #[trigger] self.chunks_map()[q]).entity == old(self).chunks_map()[q].entity by {
                lemma_assoc_map_dom(s, q);
                let jw = choose|jw: int| 0 <= jw < s.len() && (#[trigger] s[jw]).0 == q;
                lemma_assoc_map_get(s, jw);
                assert(s2[jw] == s[jw]);
                lemma_assoc_map_get(s2, jw);
            }
            assert forall|p: Point2, zq: int| #[trigger] self.get_tile_spec(p, zq) == old(
                self,
            ).get_tile_spec(p, zq) by {
                let cp = self.chunk_point_of(p);
                assert(cp == old(self).chunk_point_of(p));
                lemma_assoc_map_dom(s, cp);
                lemma_assoc_map_dom(s2, cp);
                if cp == point {
                    let idx = self.local_index_of(p) as usize;
                    assert(self.chunks_map()[point] == chunk);
                    if 0 <= zq < chunk.row_len(0) {
                        match chunk.slot_view(0, zq) {
                            Some(v) => {
                                let k = match kinds@[zq] {
                                    Some(k) => k,
                                    None => LayerKind::Dense,
                                };
                                lemma_empty_layer_get(k, old(self).area(), idx);
                            },
                            None => {},
                        }
                    }
                    assert(chunk_get(chunk, idx, zq, 0) == None::<RawTile>);
                } else {
                    if old(self).chunks_map().dom().contains(cp) {
                        let jw = choose|jw: int| 0 <= jw < s.len() && (#[trigger] s[jw]).0 == cp;
                        lemma_assoc_map_get(s, jw);
                        assert(s2[jw] == s[jw]);
                        lemma_assoc_map_get(s2, jw);
                    }
                }
            }
        }
    }

    /// Sets many tiles in one batch, creating missing chunks when the
    /// auto-chunk policy allows.  Tiles are applied in input order, the
    /// later write to a cell winning.  The whole batch is validated before
    /// any mutation: an out-of-table z-order fails with `LayerDoesNotExist`
    /// and a missing destination chunk, with auto-chunk off, fails with
    /// `MissingChunk`, each leaving the map untouched.  One `Modified` event
    /// is emitted naming exactly the z-orders the batch touches.
    pub fn insert_tiles(&mut self, tiles: Vec<Tile>) -> (r: TilemapResult<()>)
        requires
            old(self).wf(),
        ensures
            final(self).wf(),
            final(self).same_config(*old(self)),
            final(self).spawned == old(self).spawned,
            r is Ok <==> ((forall|i: int|
                0 <= i < tiles@.len() ==> (#[trigger] tiles@[i]).z_order < old(
                    self,
                ).layers@.len()) && (old(self).auto_chunk || (forall|i: int|
                0 <= i < tiles@.len() ==> old(self).chunks_map().dom().contains(
                    old(self).chunk_point_of((#[trigger] tiles@[i]).point),
                )))),
            r is Err ==> *final(self) == *old(self),
            match r {
                Err(e) => if (forall|i: int|
                    0 <= i < tiles@.len() ==> (#[trigger] tiles@[i]).z_order < old(
                        self,
                    ).layers@.len()) {
                    e.0 == ErrorKind::MissingChunk
                } else {
                    exists|i: int|
                        0 <= i < tiles@.len() && (#[trigger] tiles@[i]).z_order >= old(
                            self,
                        ).layers@.len() && e.0 == ErrorKind::LayerDoesNotExist(
                            tiles@[i].z_order,
                        )
                },
                Ok(()) => true,
            },
            r is Ok ==> {
                &&& final(self).layers@.len() == old(self).layers@.len()
                &&& forall|sl: int|
                    0 <= sl < old(self).layers@.len() && old(self).layers@[sl] is Some
                        ==> #[trigger] final(self).layers@[sl] == old(self).layers@[sl]
                &&& forall|sl: int|
                    0 <= sl < old(self).layers@.len() ==> #[trigger] final(self).layers@[sl]
                        == old(self).layers@[sl] || final(self).layers@[sl] == Some(
                        TilemapLayer { kind: LayerKind::Dense },
                    )
                &&& forall|i: int|
                    0 <= i < tiles@.len() ==> final(self).layers@[(#[trigger] tiles@[i]).z_order
                        as int] is Some
                &&& forall|q: Point2|
                    #[trigger] final(self).chunks_map().dom().contains(q) <==> (old(
                        self,
                    ).chunks_map().dom().contains(q) || (exists|i: int|
                        0 <= i < tiles@.len() && old(self).chunk_point_of(
                            (#[trigger] tiles@[i]).point,
                        ) == q))
                &&& forall|q: Point2|
                    old(self).chunks_map().dom().contains(q)
                        ==> (#[trigger] final(self).chunks_map()[q]).entity == old(
                        self,
                    ).chunks_map()[q].entity
                &&& forall|p: Point2, zq: int|
                    #[trigger] final(self).get_tile_spec(p, zq) == match last_edit(
                        tiles@,
                        p,
                        zq,
                    ) {
                        Some(t) => written_tile(t),
                        None => old(self).get_tile_spec(p, zq),
                    }
                &&& final(self).chunk_events@.len() == old(self).chunk_events@.len() + 1
                &&& final(self).chunk_events@.take(old(self).chunk_events@.len() as int) == old(
                    self,
                ).chunk_events@
                &&& (final(self).chunk_events@.last() matches TilemapChunkEvent::Modified {
                    layers,
                } && (forall|z: usize| #[trigger] names_z(layers@, z) <==> batch_uses_z(tiles@, z))
                    && (forall|j1: int, j2: int|
                    0 <= j1 < j2 < layers@.len() ==> (#[trigger] layers@[j1]).0 != (
                    #[trigger] layers@[j2]).0) && (forall|j: int|
                    0 <= j < layers@.len() ==> entity_attached(
                        *final(self),
                        (#[trigger] layers@[j]).1,
                    )))
            },
    {
        let mut i: usize = 0;
        while i < tiles.len()
            invariant
                i <= tiles@.len(),
                *self == *old(self),
                old(self).wf(),
                forall|ii: int|
                    0 <= ii < i ==> (#[trigger] tiles@[ii]).z_order < self.layers@.len(),
            decreases tiles@.len() - i,
        {
            if tiles[i].z_order >= self.layers.len() {
                return Err(TilemapError(ErrorKind::LayerDoesNotExist(tiles[i].z_order)));
            }
            i += 1;
        }
        if !self.auto_chunk {
            i = 0;
            while i < tiles.len()
                invariant
                    i <= tiles@.len(),
                    *self == *old(self),
                    old(self).wf(),
                    !old(self).auto_chunk,
                    forall|ii: int|
                        0 <= ii < tiles@.len() ==> (#[trigger] tiles@[ii]).z_order < old(
                            self,
                        ).layers@.len(),
                    forall|ii: int|
                        0 <= ii < i ==> old(self).chunks_map().dom().contains(
                            old(self).chunk_point_of((#[trigger] tiles@[ii]).point),
                        ),
                decreases tiles@.len() - i,
            {
                let cp = point_to_chunk_point(tiles[i].point, self.chunk_dimensions);
                match self.find_chunk(cp) {
                    Some(_j) => {
                        proof {
                            lemma_assoc_map_dom(self.chunks@, cp);
                        }
                    },
                    None => {
                        proof {
                            lemma_assoc_map_dom(self.chunks@, cp);
                            assert(!old(self).chunks_map().dom().contains(
                                old(self).chunk_point_of(tiles@[i as int].point),
                            ));
                        }
                        return Err(TilemapError(ErrorKind::MissingChunk));
                    },
                }
                i += 1;
            }
        }
        let sorted = match self.sort_tiles_to_chunks(&tiles) {
            Ok(v) => v,
            Err(e) => {
                proof {
                    assert(false);
                }
                return Err(e);
            },
        };
        let ghost s2 = *self;
        i = 0;
        while i < sorted.len()
            invariant
                i <= sorted@.len(),
                s2.wf(),
                self.wf(),
                self.same_config(s2),
                self.layers == s2.layers,
                self.chunk_events == s2.chunk_events,
                self.spawned == s2.spawned,
                forall|q: Point2|
                    #[trigger] self.chunks_map().dom().contains(q) <==> (
                    s2.chunks_map().dom().contains(q) || (exists|ii: int|
                        0 <= ii < i && (#[trigger] sorted@[ii]).0 == q)),
                forall|q: Point2|
                    s2.chunks_map().dom().contains(q)
                        ==> (#[trigger] self.chunks_map()[q]).entity == s2.chunks_map()[q].entity,
                forall|p: Point2, zq: int|
                    #[trigger] self.get_tile_spec(p, zq) == s2.get_tile_spec(p, zq),
            decreases sorted@.len() - i,
        {
            let (cp, _t) = sorted[i];
            let ghost mid2 = *self;
            self.ensure_chunk(cp);
            proof {
                assert(sorted@[i as int].0 == cp);
                assert forall|q: Point2| #[trigger] self.chunks_map().dom().contains(q) <==> (
                s2.chunks_map().dom().contains(q) || (exists|ii: int|
                    0 <= ii < i + 1 && (#[trigger] sorted@[ii]).0 == q)) by {
                    assert(self.chunks_map().dom() == mid2.chunks_map().dom().insert(cp));
                    if self.chunks_map().dom().contains(q) {
                        if q == cp {
                            assert(sorted@[i as int].0 == q);
                        }
                    }
                }
                assert forall|q: Point2| s2.chunks_map().dom().contains(q) implies (
                #[trigger] self.chunks_map()[q]).entity == s2.chunks_map()[q].entity by {
                    assert(mid2.chunks_map().dom().contains(q));
                    assert(self.chunks_map()[q].entity == mid2.chunks_map()[q].entity);
                }
                assert forall|p: Point2, zq: int| #[trigger] self.get_tile_spec(p, zq)
                    == s2.get_tile_spec(p, zq) by {
                    assert(self.get_tile_spec(p, zq) == mid2.get_tile_spec(p, zq));
                    assert(mid2.get_tile_spec(p, zq) == s2.get_tile_spec(p, zq));
                }
            }
            i += 1;
        }
        proof {
            assert forall|ii: int| 0 <= ii < tiles@.len() implies self.chunks_map().dom().contains(
                (#[trigger] sorted@[ii]).0,
            ) by {
                assert(sorted@[ii].0 == sorted@[ii].0);
            }
        }
        let ghost s4 = *self;
        self.apply_batch(&sorted, Ghost(tiles@));
        proof {
            lemma_distinct_zs_nodup(tiles@);
            assert forall|p: Point2, zq: int| #[trigger] final(self).get_tile_spec(p, zq) == match
                last_edit(tiles@, p, zq) {
                Some(t) => written_tile(t),
                None => old(self).get_tile_spec(p, zq),
            } by {
                assert(self.get_tile_spec(p, zq) == match last_edit(tiles@, p, zq) {
                    Some(t) => written_tile(t),
                    None => s4.get_tile_spec(p, zq),
                });
                assert(s4.get_tile_spec(p, zq) == old(self).get_tile_spec(p, zq));
            }
            assert forall|q: Point2| old(self).chunks_map().dom().contains(q) implies (
            #[trigger] final(self).chunks_map()[q]).entity == old(self).chunks_map()[q].entity by {
                assert(s4.chunks_map().dom().contains(q));
                assert(self.chunks_map()[q].entity == s4.chunks_map()[q].entity);
                assert(s4.chunks_map()[q].entity == old(self).chunks_map()[q].entity);
            }
            match final(self).chunk_events@.last() {
                TilemapChunkEvent::Modified { layers } => {
                    assert forall|z: usize| #[trigger] names_z(layers@, z) <==> batch_uses_z(
                        tiles@,
                        z,
                    ) by {
                        lemma_distinct_zs_contains(tiles@, z);
                        if names_z(layers@, z) {
                            let jj = choose|jj: int|
                                0 <= jj < layers@.len() && (#[trigger] layers@[jj]).0 == z;
                            assert(distinct_zs(tiles@)[jj] == z);
                            assert(distinct_zs(tiles@).contains(z));
                        }
                        if batch_uses_z(tiles@, z) {
                            assert(distinct_zs(tiles@).contains(z));
                            let jj = choose|jj: int|
                                0 <= jj < distinct_zs(tiles@).len() && distinct_zs(tiles@)[jj]
                                    == z;
                            assert((layers@[jj]).0 == z);
                        }
                    }
                },
                _ => {
                    assert(false);
                },
            }
            assert forall|q: Point2| #[trigger] final(self).chunks_map().dom().contains(q) <==> (
            old(self).chunks_map().dom().contains(q) || (exists|i2: int|
                0 <= i2 < tiles@.len() && old(self).chunk_point_of((#[trigger] tiles@[i2]).point)
                    == q)) by {
                assert(final(self).chunks_map().dom() == s4.chunks_map().dom());
                if s4.chunks_map().dom().contains(q) {
                    if !s2.chunks_map().dom().contains(q) {
                        let ii = choose|ii: int|
                            0 <= ii < sorted@.len() && (#[trigger] sorted@[ii]).0 == q;
                        assert(old(self).chunk_point_of(tiles@[ii].point) == q);
                    }
                }
                if exists|i2: int|
                    0 <= i2 < tiles@.len() && old(self).chunk_point_of(
                        (#[trigger] tiles@[i2]).point,
                    ) == q {
                    let i2 = choose|i2: int|
                        0 <= i2 < tiles@.len() && old(self).chunk_point_of(
                            (#[trigger] tiles@[i2]).point,
                        ) == q;
                    assert(sorted@[i2].0 == q);
                    assert(s4.chunks_map().dom().contains(q));
                }
            }
        }
        Ok(())
    }

    /// Sets a single tile: the one-element-batch special case of
    /// `insert_tiles`, with identical semantics and one `Modified` event.
    pub fn insert_tile(&mut self, tile: Tile) -> (r: TilemapResult<()>)
        requires
            old(self).wf(),
        ensures
            final(self).wf(),
            final(self).same_config(*old(self)),
            final(self).spawned == old(self).spawned,
            r is Ok <==> (tile.z_order < old(self).layers@.len() && (old(self).auto_chunk || old(
                self,
            ).chunks_map().dom().contains(old(self).chunk_point_of(tile.point)))),
            r is Err ==> *final(self) == *old(self),
            r is Ok ==> {
                &&& final(self).get_tile_spec(tile.point, tile.z_order as int) == written_tile(
                    tile,
                )
                &&& forall|p: Point2, zq: int|
                    !(p == tile.point && zq == tile.z_order)
                        ==> #[trigger] final(self).get_tile_spec(p, zq) == old(self).get_tile_spec(
                        p,
                        zq,
                    )
                &&& final(self).chunk_events@.len() == old(self).chunk_events@.len() + 1
            },
    {
        let mut tiles: Vec<Tile> = Vec::new();
        tiles.push(tile);
        let ghost batch = tiles@;
        let r = self.insert_tiles(tiles);
        proof {
            assert(batch[0] == tile);
            if r is Ok {
                assert(batch.drop_last() =~= Seq::<Tile>::empty());
                assert forall|p: Point2, zq: int|
                    !(p == tile.point && zq == tile.z_order)
                    implies #[trigger] final(self).get_tile_spec(p, zq) == old(self).get_tile_spec(
                    p,
                    zq,
                ) by {
                    assert(last_edit(batch.drop_last(), p, zq) is None);
                    assert(last_edit(batch, p, zq) is None);
                }
                assert(last_edit(batch, tile.point, tile.z_order as int) == Some(tile));
            }
        }
        r
    }
}


impl Tilemap {
    /// Clears the tiles at the specified points and z-orders: the identical
    /// batch algorithm as insertion, with sentinel-tint tiles, so a dense
    /// cell is logically deleted and a sparse entry removed.  Every
    /// destination chunk must exist, auto-chunk or not; otherwise the call
    /// fails with `MissingChunk`, leaving the map untouched, as does an
    /// out-of-table z-order with `LayerDoesNotExist`.  One `Modified` event
    /// is emitted naming exactly the z-orders the batch touches.
    pub fn clear_tiles(&mut self, points: Vec<(Point2, usize)>) -> (r: TilemapResult<()>)
        requires
            old(self).wf(),
        ensures
            final(self).wf(),
            final(self).same_config(*old(self)),
            final(self).spawned == old(self).spawned,
            final(self).chunks_map().dom() == old(self).chunks_map().dom(),
            r is Ok <==> ((forall|i: int|
                0 <= i < points@.len() ==> (#[trigger] points@[i]).1 < old(self).layers@.len())
                && (forall|i: int|
                0 <= i < points@.len() ==> old(self).chunks_map().dom().contains(
                    old(self).chunk_point_of((#[trigger] points@[i]).0),
                ))),
            r is Err ==> *final(self) == *old(self),
            match r {
                Err(e) => if (forall|i: int|
                    0 <= i < points@.len() ==> (#[trigger] points@[i]).1 < old(
                        self,
                    ).layers@.len()) {
                    e.0 == ErrorKind::MissingChunk
                } else {
                    exists|i: int|
                        0 <= i < points@.len() && (#[trigger] points@[i]).1 >= old(
                            self,
                        ).layers@.len() && e.0 == ErrorKind::LayerDoesNotExist((points@[i]).1)
                },
                Ok(()) => true,
            },
            r is Ok ==> {
                &&& forall|q: Point2|
                    old(self).chunks_map().dom().contains(q)
                        ==> (#[trigger] final(self).chunks_map()[q]).entity == old(
                        self,
                    ).chunks_map()[q].entity
                &&& forall|p: Point2, zq: int|
                    #[trigger] final(self).get_tile_spec(p, zq) == match last_edit(
                        points@.map_values(|pz: (Point2, usize)| clear_tile_of(pz)),
                        p,
                        zq,
                    ) {
                        Some(t) => None::<RawTile>,
                        None => old(self).get_tile_spec(p, zq),
                    }
                &&& final(self).chunk_events@.len() == old(self).chunk_events@.len() + 1
                &&& final(self).chunk_events@.take(old(self).chunk_events@.len() as int) == old(
                    self,
                ).chunk_events@
                &&& (final(self).chunk_events@.last() matches TilemapChunkEvent::Modified {
                    layers,
                } && (forall|z: usize|
                    #[trigger] names_z(layers@, z) <==> (exists|i: int|
                        0 <= i < points@.len() && (#[trigger] points@[i]).1 == z)) && (forall|
                    j1: int,
                    j2: int,
                |
                    0 <= j1 < j2 < layers@.len() ==> (#[trigger] layers@[j1]).0 != (
                    #[trigger] layers@[j2]).0) && (forall|j: int|
                    0 <= j < layers@.len() ==> entity_attached(
                        *final(self),
                        (#[trigger] layers@[j]).1,
                    )))
            },
    {
        let ghost batch = points@.map_values(|pz: (Point2, usize)| clear_tile_of(pz));
        let mut tiles: Vec<Tile> = Vec::new();
        let mut i: usize = 0;
        while i < points.len()
            invariant
                i <= points@.len(),
                tiles@.len() == i,
                batch == points@.map_values(|pz: (Point2, usize)| clear_tile_of(pz)),
                forall|ii: int| 0 <= ii < i ==> (#[trigger] tiles@[ii]) == batch[ii],
            decreases points@.len() - i,
        {
            let (point, z_order) = points[i];
            tiles.push(
                Tile { point, sprite_index: 0, z_order, tint: Color::rgba(0, 0, 0, 0) },
            );
            i += 1;
        }
        proof {
            assert(tiles@ =~= batch);
            assert forall|ii: int| 0 <= ii < points@.len() implies (#[trigger] batch[ii]).z_order
                == (points@[ii]).1 && batch[ii].point == (points@[ii]).0 && batch[ii].tint.a
                == 0 by {
                assert(batch[ii] == clear_tile_of(points@[ii]));
            }
        }
        i = 0;
        while i < tiles.len()
            invariant
                i <= tiles@.len(),
                *self == *old(self),
                old(self).wf(),
                tiles@ == batch,
                forall|ii: int|
                    0 <= ii < points@.len() ==> (#[trigger] batch[ii]).z_order == (
                    points@[ii]).1,
                points@.len() == batch.len(),
                forall|ii: int|
                    0 <= ii < i ==> (#[trigger] tiles@[ii]).z_order < self.layers@.len(),
            decreases tiles@.len() - i,
        {
            if tiles[i].z_order >= self.layers.len() {
                proof {
                    assert((points@[i as int]).1 == tiles@[i as int].z_order);
                }
                return Err(TilemapError(ErrorKind::LayerDoesNotExist(tiles[i].z_order)));
            }
            i += 1;
        }
        i = 0;
        while i < tiles.len()
            invariant
                i <= tiles@.len(),
                *self == *old(self),
                old(self).wf(),
                tiles@ == batch,
                forall|ii: int|
                    0 <= ii < points@.len() ==> (#[trigger] batch[ii]).z_order == (points@[ii]).1
                        && batch[ii].point == (points@[ii]).0,
                points@.len() == batch.len(),
                forall|ii: int|
                    0 <= ii < tiles@.len() ==> (#[trigger] tiles@[ii]).z_order < old(
                        self,
                    ).layers@.len(),
                forall|ii: int|
                    0 <= ii < i ==> old(self).chunks_map().dom().contains(
                        old(self).chunk_point_of((#[trigger] tiles@[ii]).point),
                    ),
            decreases tiles@.len() - i,
        {
            let cp = point_to_chunk_point(tiles[i].point, self.chunk_dimensions);
            match self.find_chunk(cp) {
                Some(_j) => {
                    proof {
                        lemma_assoc_map_dom(self.chunks@, cp);
                    }
                },
                None => {
                    proof {
                        lemma_assoc_map_dom(self.chunks@, cp);
                        assert(!old(self).chunks_map().dom().contains(
                            old(self).chunk_point_of(tiles@[i as int].point),
                        ));
                        assert(batch[i as int].point == (points@[i as int]).0);
                        assert(!old(self).chunks_map().dom().contains(
                            old(self).chunk_point_of((points@[i as int]).0),
                        ));
                        assert forall|i2: int| 0 <= i2 < points@.len() implies (
                        #[trigger] points@[i2]).1 < old(self).layers@.len() by {
                            assert((batch[i2]).z_order == (points@[i2]).1);
                            assert((tiles@[i2]).z_order < old(self).layers@.len());
                        }
                    }
                    return Err(TilemapError(ErrorKind::MissingChunk));
                },
            }
            i += 1;
        }
        let ghost checked = *self;
        let sorted = match self.sort_tiles_to_chunks(&tiles) {
            Ok(v) => v,
            Err(e) => {
                proof {
                    assert(false);
                }
                return Err(e);
            },
        };
        let ghost s4 = *self;
        proof {
            assert forall|ii: int| 0 <= ii < tiles@.len() implies self.chunks_map().dom().contains(
                (#[trigger] sorted@[ii]).0,
            ) by {
                assert(sorted@[ii].0 == old(self).chunk_point_of(tiles@[ii].point));
                assert(old(self).chunks_map().dom().contains(
                    old(self).chunk_point_of(tiles@[ii].point),
                ));
            }
            assert forall|i2: int| 0 <= i2 < points@.len() implies (#[trigger] points@[i2]).1 < old(
                self,
            ).layers@.len() && old(self).chunks_map().dom().contains(
                old(self).chunk_point_of((points@[i2]).0),
            ) by {
                assert((batch[i2]).z_order == (points@[i2]).1);
                assert((batch[i2]).point == (points@[i2]).0);
                assert((tiles@[i2]).z_order < old(self).layers@.len());
                assert(old(self).chunks_map().dom().contains(
                    old(self).chunk_point_of(tiles@[i2].point),
                ));
            }
        }
        self.apply_batch(&sorted, Ghost(tiles@));
        proof {
            lemma_distinct_zs_nodup(tiles@);
            assert forall|p: Point2, zq: int| #[trigger] self.get_tile_spec(p, zq) == match
                last_edit(batch, p, zq) {
                Some(t) => None::<RawTile>,
                None => old(self).get_tile_spec(p, zq),
            } by {
                assert(self.get_tile_spec(p, zq) == match last_edit(tiles@, p, zq) {
                    Some(t) => written_tile(t),
                    None => s4.get_tile_spec(p, zq),
                });
                assert(s4.get_tile_spec(p, zq) == old(self).get_tile_spec(p, zq));
                lemma_last_edit_element(batch, p, zq);
                match last_edit(batch, p, zq) {
                    Some(t) => {
                        let iw = choose|iw: int|
                            0 <= iw < batch.len() && (#[trigger] batch[iw]) == t;
                        assert(batch[iw] == clear_tile_of(points@[iw]));
                        assert(t.tint.a == 0);
                        assert(written_tile(t) is None);
                    },
                    None => {},
                }
            }
            assert forall|q: Point2| old(self).chunks_map().dom().contains(q) implies (
            #[trigger] self.chunks_map()[q]).entity == old(self).chunks_map()[q].entity by {
                assert(s4.chunks_map().dom().contains(q));
                assert(self.chunks_map()[q].entity == s4.chunks_map()[q].entity);
                assert(s4.chunks_map()[q].entity == old(self).chunks_map()[q].entity);
            }
            match self.chunk_events@.last() {
                TilemapChunkEvent::Modified { layers } => {
                    assert forall|z: usize| #[trigger] names_z(layers@, z) <==> (exists|i2: int|
                        0 <= i2 < points@.len() && (#[trigger] points@[i2]).1 == z) by {
                        lemma_distinct_zs_contains(batch, z);
                        if names_z(layers@, z) {
                            let jj = choose|jj: int|
                                0 <= jj < layers@.len() && (#[trigger] layers@[jj]).0 == z;
                            assert(distinct_zs(batch)[jj] == z);
                            assert(distinct_zs(batch).contains(z));
                            let iw = choose|iw: int|
                                0 <= iw < batch.len() && (#[trigger] batch[iw]).z_order == z;
                            assert((points@[iw]).1 == z);
                        }
                        if exists|i2: int|
                            0 <= i2 < points@.len() && (#[trigger] points@[i2]).1 == z {
                            let i2 = choose|i2: int|
                                0 <= i2 < points@.len() && (#[trigger] points@[i2]).1 == z;
                            assert(batch[i2].z_order == z);
                            assert(distinct_zs(batch).contains(z));
                            let jj = choose|jj: int|
                                0 <= jj < distinct_zs(batch).len() && distinct_zs(batch)[jj] == z;
                            assert((layers@[jj]).0 == z);
                        }
                    }
                },
                _ => {
                    assert(false);
                },
            }
        }
        Ok(())
    }

    /// Clears a single tile: the one-element-batch special case of
    /// `clear_tiles`.
    pub fn clear_tile(&mut self, point: Point2, z_order: usize) -> (r: TilemapResult<()>)
        requires
            old(self).wf(),
        ensures
            final(self).wf(),
            final(self).same_config(*old(self)),
            final(self).spawned == old(self).spawned,
            final(self).chunks_map().dom() == old(self).chunks_map().dom(),
            r is Ok <==> (z_order < old(self).layers@.len() && old(
                self,
            ).chunks_map().dom().contains(old(self).chunk_point_of(point))),
            r is Err ==> *final(self) == *old(self),
            r is Ok ==> {
                &&& final(self).get_tile_spec(point, z_order as int) is None
                &&& forall|p: Point2, zq: int|
                    !(p == point && zq == z_order)
                        ==> #[trigger] final(self).get_tile_spec(p, zq) == old(self).get_tile_spec(
                        p,
                        zq,
                    )
                &&& final(self).chunk_events@.len() == old(self).chunk_events@.len() + 1
            },
    {
        let mut points: Vec<(Point2, usize)> = Vec::new();
        points.push((point, z_order));
        let ghost pts = points@;
        let r = self.clear_tiles(points);
        proof {
            assert(pts[0] == (point, z_order));
            let batch = pts.map_values(|pz: (Point2, usize)| clear_tile_of(pz));
            assert(batch[0] == clear_tile_of((point, z_order)));
            assert(batch.len() == 1);
            if r is Ok {
                assert forall|p: Point2, zq: int|
                    !(p == point && zq == z_order)
                    implies #[trigger] final(self).get_tile_spec(p, zq) == old(self).get_tile_spec(
                    p,
                    zq,
                ) by {
                    assert(last_edit(batch.drop_last(), p, zq) is None);
                    assert(last_edit(batch, p, zq) is None);
                }
                assert(last_edit(batch, point, z_order as int) == Some(batch[0]));
            }
        }
        r
    }
}


impl TilemapBuilder {
    /// Consumes the builder and assembles the tilemap atomically.
    ///
    /// Fails with `MissingTextureAtlas` or `MissingTileDimensions` when a
    /// required field was not set; no partially built tilemap is observable.
    /// The layer table's length is the larger of the configured z-layer
    /// count and the number of added layers; every added layer within that
    /// range is configured at its z-order and every other slot is left
    /// unconfigured.
    pub fn finish(self) -> (r: TilemapResult<Tilemap>)
        requires
            self.wf(),
        ensures
            r is Err <==> (self.texture_atlas is None || self.tile_dimensions is None),
            match r {
                Err(e) => e.0 == (if self.texture_atlas is None {
                    ErrorKind::MissingTextureAtlas
                } else {
                    ErrorKind::MissingTileDimensions
                }),
                Ok(t) => {
                    &&& t.wf()
                    &&& t.topology == self.topology
                    &&& t.dimensions == self.dimensions
                    &&& t.chunk_dimensions == self.chunk_dimensions
                    &&& Some(t.tile_dimensions) == self.tile_dimensions
                    &&& Some(t.texture_atlas) == self.texture_atlas
                    &&& t.auto_chunk == self.auto_chunk
                    &&& t.auto_spawn == self.auto_spawn
                    &&& t.layers@.len() == (if self.z_layers > self.layers@.len() {
                        self.z_layers as int
                    } else {
                        self.layers@.len() as int
                    })
                    &&& forall|j: int|
                        0 <= j < self.layers@.len() && ((#[trigger] self.layers@[j]).0 as int)
                            < t.layers@.len() ==> t.layers@[(self.layers@[j]).0 as int] == Some(
                            (self.layers@[j]).1,
                        )
                    &&& forall|zz: int|
                        0 <= zz < t.layers@.len() && !assoc_map(self.layers@).dom().contains(
                            zz as usize,
                        ) ==> (#[trigger] t.layers@[zz]) is None
                    &&& t.chunks@.len() == 0
                    &&& t.chunk_events@.len() == 0
                    &&& t.spawned@.len() == 0
                },
            },
    {
        let texture_atlas = match self.texture_atlas {
            Some(atlas) => atlas,
            None => {
                return Err(TilemapError(ErrorKind::MissingTextureAtlas));
            },
        };
        let tile_dimensions = match self.tile_dimensions {
            Some(dimensions) => dimensions,
            None => {
                return Err(TilemapError(ErrorKind::MissingTileDimensions));
            },
        };
        let z_layers = if self.z_layers > self.layers.len() {
            self.z_layers
        } else {
            self.layers.len()
        };
        let mut table: Vec<Option<TilemapLayer>> = Vec::new();
        let mut n: usize = 0;
        while n < z_layers
            invariant
                n <= z_layers,
                table@.len() == n,
                forall|zz: int| 0 <= zz < n ==> (#[trigger] table@[zz]) is None,
            decreases z_layers - n,
        {
            table.push(None);
            n += 1;
        }
        let mut tilemap = Tilemap {
            topology: self.topology,
            dimensions: self.dimensions,
            chunk_dimensions: self.chunk_dimensions,
            tile_dimensions,
            layers: table,
            auto_chunk: self.auto_chunk,
            auto_spawn: self.auto_spawn,
            texture_atlas,
            chunks: Vec::new(),
            chunk_events: Vec::new(),
            spawned: Vec::new(),
        };
        let mut i: usize = 0;
        while i < self.layers.len()
            invariant
                i <= self.layers@.len(),
                self.wf(),
                tilemap.wf(),
                z_layers as int == (if self.z_layers > self.layers@.len() {
                    self.z_layers as int
                } else {
                    self.layers@.len() as int
                }),
                tilemap.topology == self.topology,
                tilemap.dimensions == self.dimensions,
                tilemap.chunk_dimensions == self.chunk_dimensions,
                tilemap.tile_dimensions == tile_dimensions,
                tilemap.auto_chunk == self.auto_chunk,
                tilemap.auto_spawn == self.auto_spawn,
                tilemap.texture_atlas == texture_atlas,
                tilemap.layers@.len() == z_layers,
                tilemap.chunks@.len() == 0,
                tilemap.chunk_events@.len() == 0,
                tilemap.spawned@.len() == 0,
                forall|j: int|
                    0 <= j < i && ((#[trigger] self.layers@[j]).0 as int) < z_layers
                        ==> tilemap.layers@[(self.layers@[j]).0 as int] == Some(
                        (self.layers@[j]).1,
                    ),
                forall|zz: int|
                    0 <= zz < z_layers && !(exists|j: int|
                        0 <= j < i && ((#[trigger] self.layers@[j]).0 as int) == zz)
                        ==> #[trigger] tilemap.layers@[zz] is None,
            decreases self.layers@.len() - i,
        {
            let (z_order, layer) = self.layers[i];
            proof {
                if (z_order as int) < z_layers {
                    if exists|j: int|
                        0 <= j < i && ((#[trigger] self.layers@[j]).0 as int) == z_order as int {
                        let j = choose|j: int|
                            0 <= j < i && ((#[trigger] self.layers@[j]).0 as int)
                                == z_order as int;
                        assert((self.layers@[j]).0 != (self.layers@[i as int]).0);
                        assert(false);
                    }
                    assert(tilemap.layers@[z_order as int] is None);
                }
            }
            let ghost pre = tilemap;
            match tilemap.add_layer(layer, z_order) {
                Ok(()) => {},
                Err(e) => {
                    proof {
                        assert(false);
                    }
                    return Err(e);
                },
            }
            proof {
                if tilemap.chunks@.len() > 0 {
                    lemma_assoc_map_get(tilemap.chunks@, 0);
                    lemma_assoc_map_dom(pre.chunks@, (tilemap.chunks@[0]).0);
                    assert(false);
                }
                assert forall|j: int|
                    0 <= j < i + 1 && ((#[trigger] self.layers@[j]).0 as int) < z_layers
                    implies tilemap.layers@[(self.layers@[j]).0 as int] == Some(
                    (self.layers@[j]).1,
                ) by {
                    if j < i {
                        assert((self.layers@[j]).0 != (self.layers@[i as int]).0);
                        assert(pre.layers@[(self.layers@[j]).0 as int] == Some(
                            (self.layers@[j]).1,
                        ));
                    }
                }
                assert forall|zz: int|
                    0 <= zz < z_layers && !(exists|j: int|
                        0 <= j < i + 1 && ((#[trigger] self.layers@[j]).0 as int) == zz)
                    implies #[trigger] tilemap.layers@[zz] is None by {
                    assert(!(exists|j: int|
                        0 <= j < i && ((#[trigger] self.layers@[j]).0 as int) == zz));
                    assert(pre.layers@[zz] is None);
                    assert(zz != z_order as int);
                }
            }
            i += 1;
        }
        proof {
            assert forall|zz: int|
                0 <= zz < tilemap.layers@.len() && !assoc_map(self.layers@).dom().contains(
                    zz as usize,
                ) implies (#[trigger] tilemap.layers@[zz]) is None by {
                lemma_assoc_map_dom(self.layers@, zz as usize);
                if exists|j: int|
                    0 <= j < self.layers@.len() && ((#[trigger] self.layers@[j]).0 as int) == zz {
                    let j = choose|j: int|
                        0 <= j < self.layers@.len() && ((#[trigger] self.layers@[j]).0 as int)
                            == zz;
                    assert((self.layers@[j]).0 == zz as usize);
                    assert(false);
                }
            }
        }
        Ok(tilemap)
    }
}

} // verus!
