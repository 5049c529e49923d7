use tilemap::coord::Point2;
use tilemap::layer::LayerKind;
use tilemap::tile::{Color, RawTile, Tile};
use tilemap::tilemap::{
    ErrorKind, GridTopology, Tilemap, TilemapBuilder, TilemapChunkEvent, TilemapError,
    TilemapLayer,
};

fn white_tile(x: i32, y: i32, sprite_index: usize, z_order: usize) -> Tile {
    Tile { point: Point2::new(x, y), sprite_index, z_order, tint: Color::white() }
}

#[test]
fn auto_chunk_scenario() {
    // A map with 32 by 32 chunks, an unconfigured layer table entry at
    // z-order 0 and auto-chunk on: inserting a tile with no prior
    // insert_chunk succeeds and creates the chunk at (0, 0).
    let mut tilemap = TilemapBuilder::new()
        .texture_atlas(1)
        .chunk_dimensions(32, 32)
        .tile_dimensions(32, 32)
        .auto_chunk()
        .finish()
        .unwrap();
    let tile = Tile { point: Point2::new(9, 3), sprite_index: 3, ..Tile::default() };
    assert!(tilemap.insert_tile(tile).is_ok());
    assert!(tilemap.contains_chunk(Point2::new(0, 0)));
    assert_eq!(
        tilemap.get_tile(Point2::new(9, 3), 0),
        Some(RawTile { index: 3, color: Color::white() })
    );
    assert_eq!(tilemap.get_tile(Point2::new(10, 4), 0), None);
}

#[test]
fn batch_emits_one_event_naming_affected_layers() {
    // Six tiles across three distinct z-orders: exactly one Modified event,
    // naming exactly those three layers.
    let mut tilemap = TilemapBuilder::new()
        .texture_atlas(1)
        .tile_dimensions(32, 32)
        .auto_chunk()
        .finish()
        .unwrap();
    let tiles = vec![
        white_tile(0, 0, 1, 0),
        white_tile(1, 0, 2, 1),
        white_tile(2, 0, 3, 2),
        white_tile(3, 0, 4, 0),
        white_tile(40, 40, 5, 1),
        white_tile(-40, -40, 6, 2),
    ];
    assert!(tilemap.insert_tiles(tiles).is_ok());
    let events = tilemap.chunk_events();
    assert_eq!(events.len(), 1);
    match &events[0] {
        TilemapChunkEvent::Modified { layers } => {
            let mut zs: Vec<usize> = layers.iter().map(|e| e.0).collect();
            zs.sort();
            assert_eq!(zs, vec![0, 1, 2]);
        },
        _ => panic!("expected a Modified event"),
    }
}

#[test]
fn spawn_is_idempotent_and_despawn_always_reports() {
    let mut tilemap = Tilemap::new(1, 32, 32);
    assert!(tilemap.insert_chunk(Point2::new(0, 0)).is_ok());

    assert!(tilemap.spawn_chunk(Point2::new(0, 0)).is_ok());
    assert!(tilemap.spawn_chunk(Point2::new(0, 0)).is_ok());
    let spawned_events = tilemap
        .chunk_events()
        .iter()
        .filter(|e| matches!(e, TilemapChunkEvent::Spawned { .. }))
        .count();
    assert_eq!(spawned_events, 1);

    // Despawning a chunk that was never spawned is accepted and reports an
    // empty entity set.
    let mut other = Tilemap::new(1, 32, 32);
    assert!(other.insert_chunk(Point2::new(0, 0)).is_ok());
    assert!(other.despawn_chunk(Point2::new(0, 0)).is_ok());
    let events = other.chunk_events();
    assert_eq!(events.len(), 1);
    match &events[0] {
        TilemapChunkEvent::Despawned { point, entities } => {
            assert_eq!(*point, Point2::new(0, 0));
            assert!(entities.is_empty());
        },
        _ => panic!("expected a Despawned event"),
    }
}

#[test]
fn layer_conflicts_are_rejected_without_mutation() {
    let mut tilemap = Tilemap::new(1, 32, 32);
    let layer = TilemapLayer { kind: LayerKind::Sparse };
    assert!(tilemap.add_layer(layer, 1).is_ok());
    assert_eq!(
        tilemap.add_layer(layer, 1),
        Err(TilemapError(ErrorKind::LayerExists(1)))
    );
    assert!(tilemap.add_layer(TilemapLayer { kind: LayerKind::Dense }, 2).is_ok());

    let before = tilemap.layers();
    assert_eq!(
        tilemap.move_layer(2, 1),
        Err(TilemapError(ErrorKind::LayerExists(1)))
    );
    assert_eq!(tilemap.layers(), before);

    assert!(tilemap.move_layer(1, 0).is_ok());
    let after = tilemap.layers();
    assert_eq!(after[0], Some(layer));
    assert_eq!(after[1], None);
}

#[test]
fn insert_chunk_bounds_and_duplicates() {
    let mut tilemap = TilemapBuilder::new()
        .texture_atlas(1)
        .dimensions(3, 3)
        .tile_dimensions(32, 32)
        .finish()
        .unwrap();
    assert!(tilemap.insert_chunk(Point2::new(0, 0)).is_ok());
    assert!(tilemap.insert_chunk(Point2::new(1, 1)).is_ok());
    assert_eq!(
        tilemap.insert_chunk(Point2::new(-2, -2)).unwrap_err().0,
        ErrorKind::DimensionError(tilemap::coord::DimensionError::OutOfBounds)
    );
    assert_eq!(
        tilemap.insert_chunk(Point2::new(1, 1)).unwrap_err().0,
        ErrorKind::ChunkAlreadyExists(Point2::new(1, 1))
    );
    assert!(tilemap.contains_chunk(Point2::new(0, 0)));
    assert!(tilemap.contains_chunk(Point2::new(1, 1)));
    assert!(!tilemap.contains_chunk(Point2::new(-2, -2)));

    assert!(tilemap.remove_chunk(Point2::new(0, 0)).is_ok());
    assert!(!tilemap.contains_chunk(Point2::new(0, 0)));
}

#[test]
fn insert_tiles_without_auto_chunk_requires_chunks() {
    let mut tilemap = Tilemap::new(1, 32, 32);
    let tiles = vec![white_tile(1, 1, 0, 0)];
    assert_eq!(
        tilemap.insert_tiles(tiles),
        Err(TilemapError(ErrorKind::MissingChunk))
    );
    assert!(tilemap.insert_chunk(Point2::new(0, 0)).is_ok());
    assert!(tilemap.insert_tiles(vec![white_tile(1, 1, 0, 0)]).is_ok());
    assert_eq!(
        tilemap.get_tile(Point2::new(1, 1), 0),
        Some(RawTile { index: 0, color: Color::white() })
    );
}

#[test]
fn insert_tiles_rejects_out_of_table_z_order() {
    let mut tilemap = Tilemap::new(1, 32, 32);
    let tiles = vec![white_tile(0, 0, 0, 99)];
    assert_eq!(
        tilemap.insert_tiles(tiles),
        Err(TilemapError(ErrorKind::LayerDoesNotExist(99)))
    );
}

#[test]
fn clear_tiles_follows_insert_semantics() {
    let mut tilemap = Tilemap::new(1, 32, 32);
    assert!(tilemap.insert_chunk(Point2::new(0, 0)).is_ok());
    let tiles = vec![
        white_tile(1, 1, 0, 0),
        white_tile(2, 2, 0, 0),
        white_tile(3, 3, 0, 0),
    ];
    assert!(tilemap.insert_tiles(tiles).is_ok());

    let to_remove = vec![(Point2::new(1, 1), 0), (Point2::new(2, 2), 0)];
    assert!(tilemap.clear_tiles(to_remove).is_ok());
    assert_eq!(tilemap.get_tile(Point2::new(1, 1), 0), None);
    assert_eq!(tilemap.get_tile(Point2::new(2, 2), 0), None);
    assert_eq!(
        tilemap.get_tile(Point2::new(3, 3), 0),
        Some(RawTile { index: 0, color: Color::white() })
    );

    // Clearing never creates chunks, even under auto-chunk.
    let mut auto = TilemapBuilder::new()
        .texture_atlas(1)
        .tile_dimensions(32, 32)
        .auto_chunk()
        .finish()
        .unwrap();
    assert_eq!(
        auto.clear_tile(Point2::new(0, 0), 0),
        Err(TilemapError(ErrorKind::MissingChunk))
    );
}

#[test]
fn last_write_wins_within_a_batch() {
    let mut tilemap = TilemapBuilder::new()
        .texture_atlas(1)
        .tile_dimensions(32, 32)
        .auto_chunk()
        .finish()
        .unwrap();
    let tiles = vec![white_tile(4, 4, 1, 0), white_tile(4, 4, 2, 0)];
    assert!(tilemap.insert_tiles(tiles).is_ok());
    assert_eq!(
        tilemap.get_tile(Point2::new(4, 4), 0),
        Some(RawTile { index: 2, color: Color::white() })
    );
}

#[test]
fn get_tile_mut_emits_modification_event() {
    let mut tilemap = TilemapBuilder::new()
        .texture_atlas(1)
        .tile_dimensions(32, 32)
        .auto_chunk()
        .finish()
        .unwrap();
    assert!(tilemap.insert_tile(white_tile(2, 5, 2, 0)).is_ok());
    tilemap.chunk_events_update();

    // Without an entity handle on the chunk no event is emitted.
    assert_eq!(
        tilemap.get_tile_mut(Point2::new(2, 5), 0),
        Some(RawTile { index: 2, color: Color::white() })
    );
    assert_eq!(tilemap.chunk_events().len(), 0);

    // Once the external consumer attached an entity, mutable access reports.
    tilemap.chunks[0].1.set_entity(11);
    assert_eq!(
        tilemap.get_tile_mut(Point2::new(2, 5), 0),
        Some(RawTile { index: 2, color: Color::white() })
    );
    let events = tilemap.chunk_events();
    assert_eq!(events.len(), 1);
    match &events[0] {
        TilemapChunkEvent::Modified { layers } => {
            assert_eq!(layers.len(), 1);
            assert_eq!(layers[0], (0, Some(11)));
        },
        _ => panic!("expected a Modified event"),
    }
}

#[test]
fn builder_requires_atlas_and_tile_dimensions() {
    assert_eq!(
        TilemapBuilder::new().finish().unwrap_err().0,
        ErrorKind::MissingTextureAtlas
    );
    assert_eq!(
        TilemapBuilder::new().texture_atlas(1).finish().unwrap_err().0,
        ErrorKind::MissingTileDimensions
    );
    assert!(TilemapBuilder::new()
        .tile_dimensions(32, 32)
        .texture_atlas(1)
        .finish()
        .is_ok());
}

#[test]
fn builder_assembles_configuration() {
    let tilemap = TilemapBuilder::new()
        .topology(GridTopology::HexX)
        .texture_atlas(9)
        .chunk_dimensions(64, 64)
        .tile_dimensions(8, 8)
        .dimensions(32, 32)
        .add_layer(TilemapLayer { kind: LayerKind::Dense }, 0)
        .add_layer(TilemapLayer { kind: LayerKind::Sparse }, 1)
        .z_layers(3)
        .finish()
        .unwrap();
    assert_eq!(tilemap.topology(), GridTopology::HexX);
    assert_eq!(tilemap.texture_atlas(), 9);
    assert_eq!(tilemap.chunk_width(), 64);
    assert_eq!(tilemap.chunk_height(), 64);
    assert_eq!(tilemap.tile_width(), 8);
    assert_eq!(tilemap.tile_height(), 8);
    assert_eq!(tilemap.width(), Some(32));
    assert_eq!(tilemap.height(), Some(32));
    let layers = tilemap.layers();
    assert_eq!(layers.len(), 3);
    assert_eq!(layers[0], Some(TilemapLayer { kind: LayerKind::Dense }));
    assert_eq!(layers[1], Some(TilemapLayer { kind: LayerKind::Sparse }));
    assert_eq!(layers[2], None);
}

#[test]
fn center_tile_coord_needs_dimensions() {
    let tilemap = TilemapBuilder::new()
        .texture_atlas(1)
        .dimensions(32, 32)
        .tile_dimensions(32, 32)
        .finish()
        .unwrap();
    assert_eq!(tilemap.center_tile_coord(), Some((512, 512)));
    let unbounded = Tilemap::new(1, 32, 32);
    assert_eq!(unbounded.center_tile_coord(), None);
}

#[test]
fn spawn_bounds_are_checked() {
    let mut tilemap = TilemapBuilder::new()
        .texture_atlas(1)
        .dimensions(1, 1)
        .tile_dimensions(32, 32)
        .finish()
        .unwrap();
    assert!(tilemap.insert_chunk(Point2::new(0, 0)).is_ok());
    assert!(tilemap.spawn_chunk(Point2::new(0, 0)).is_ok());
    assert!(tilemap.spawn_chunk(Point2::new(1, 1)).is_err());
    assert!(tilemap.spawn_chunk(Point2::new(-1, -1)).is_err());
    assert!(tilemap.despawn_chunk(Point2::new(0, 0)).is_ok());
    assert!(tilemap.despawn_chunk(Point2::new(-1, -1)).is_err());
}

#[test]
fn spawn_chunk_containing_point_routes_to_owner() {
    let mut tilemap = TilemapBuilder::new()
        .texture_atlas(1)
        .chunk_dimensions(32, 32)
        .tile_dimensions(32, 32)
        .dimensions(1, 1)
        .finish()
        .unwrap();
    assert!(tilemap.insert_chunk(Point2::new(0, 0)).is_ok());
    assert!(tilemap.spawn_chunk_containing_point(Point2::new(15, 15)).is_ok());
    assert!(tilemap.spawn_chunk_containing_point(Point2::new(16, 16)).is_err());
    assert!(tilemap.spawn_chunk_containing_point(Point2::new(-18, -18)).is_err());
}

#[test]
fn error_descriptions_are_stable() {
    assert!(TilemapError(ErrorKind::MissingChunk).describe().contains("chunk"));
    assert!(ErrorKind::LayerExists(3).describe().contains("layer"));
    assert!(ErrorKind::MissingTextureAtlas.describe().contains("texture atlas"));
}

#[test]
fn point_to_chunk_point_method_matches_free_function() {
    let tilemap = Tilemap::new(1, 32, 32);
    assert_eq!(tilemap.point_to_chunk_point(Point2::new(15, 15)), (0, 0));
    assert_eq!(tilemap.point_to_chunk_point(Point2::new(16, 16)), (1, 1));
    assert_eq!(tilemap.point_to_chunk_point(Point2::new(-16, -16)), (0, 0));
    assert_eq!(tilemap.point_to_chunk_point(Point2::new(-17, -17)), (-1, -1));
}

#[test]
fn events_drain_once_per_tick() {
    let mut tilemap = Tilemap::new(1, 32, 32);
    assert!(tilemap.insert_chunk(Point2::new(0, 0)).is_ok());
    assert!(tilemap.spawn_chunk(Point2::new(0, 0)).is_ok());
    assert_eq!(tilemap.chunk_events().len(), 1);
    tilemap.chunk_events_update();
    assert_eq!(tilemap.chunk_events().len(), 0);
}

#[test]
fn add_layer_with_kind_matches_add_layer() {
    let mut tilemap = Tilemap::new(1, 32, 32);
    assert!(tilemap.add_layer_with_kind(LayerKind::Sparse, 0).is_ok());
    assert_eq!(
        tilemap.add_layer_with_kind(LayerKind::Dense, 0),
        Err(TilemapError(ErrorKind::LayerExists(0)))
    );
    assert_eq!(tilemap.layers()[0], Some(TilemapLayer { kind: LayerKind::Sparse }));
}

#[test]
fn remove_layer_clears_the_slot() {
    let mut tilemap = Tilemap::new(1, 32, 32);
    assert!(tilemap.insert_chunk(Point2::new(0, 0)).is_ok());
    assert!(tilemap.add_layer(TilemapLayer { kind: LayerKind::Sparse }, 1).is_ok());
    assert!(tilemap.insert_tile(white_tile(0, 0, 5, 1)).is_ok());
    tilemap.remove_layer(1);
    assert_eq!(tilemap.layers()[1], None);
    assert_eq!(tilemap.get_tile(Point2::new(0, 0), 1), None);
}
