use tilemap::chunk::Chunk;
use tilemap::coord::{Dimension3, Point2};
use tilemap::layer::LayerKind;
use tilemap::tile::{Color, RawTile};

#[test]
fn test_layer() {
    let point = Point2::new(0, 0);
    let layers = vec![
        Some(LayerKind::Dense),
        Some(LayerKind::Sparse),
        None,
        Some(LayerKind::Sparse),
        None,
    ];
    let dimensions = Dimension3::new(5, 5, 3);
    let empty: Vec<Option<LayerKind>> = vec![None, None, None, None, None];
    let mut chunk = Chunk::new(point, &empty, dimensions);
    for (x, layer) in layers.iter().enumerate() {
        if let Some(layer) = layer {
            chunk.add_sprite_layer(layer, x, dimensions);
        }
    }

    assert_eq!(chunk.z_layers.len(), 3);
    for layer in &chunk.z_layers {
        assert_eq!(layer.len(), 5);
    }

    chunk.move_sprite_layer(1, 2);
    let sprite_layers = chunk.z_layers.get(0).unwrap();
    assert!(sprite_layers.get(1).unwrap().as_ref().is_none());
    assert!(sprite_layers.get(0).unwrap().as_ref().is_some());

    chunk.remove_sprite_layer(0);
    assert_eq!(chunk.z_layers.len(), 3);
    for layer in &chunk.z_layers {
        assert_eq!(layer.len(), 4);
    }
}

#[test]
fn chunk_set_get_remove_tile() {
    let dims = Dimension3::new(4, 4, 1);
    let kinds = vec![Some(LayerKind::Dense), Some(LayerKind::Sparse)];
    let mut chunk = Chunk::new(Point2::new(0, 0), &kinds, dims);

    let tile = RawTile::new(9, Color::white());
    chunk.set_tile(5, 0, 0, tile);
    assert_eq!(chunk.get_tile(5, 0, 0), Some(tile));
    assert_eq!(chunk.get_tile(6, 0, 0), None);

    chunk.set_tile(5, 0, 1, tile);
    assert_eq!(chunk.get_tile(5, 1, 0), Some(tile));

    chunk.remove_tile(5, 0, 0);
    assert_eq!(chunk.get_tile(5, 0, 0), None);
    chunk.remove_tile(5, 1, 0);
    assert_eq!(chunk.get_tile(5, 1, 0), None);

    // A missing depth, slot, or layer is a non-fatal no-op.
    chunk.set_tile(5, 7, 0, tile);
    chunk.set_tile(5, 0, 9, tile);
    assert_eq!(chunk.get_tile(5, 0, 0), None);
    assert_eq!(chunk.get_tile(5, 9, 7), None);
}

#[test]
fn chunk_clear_layer_empties_storages() {
    let dims = Dimension3::new(3, 3, 1);
    let kinds = vec![Some(LayerKind::Dense), Some(LayerKind::Sparse)];
    let mut chunk = Chunk::new(Point2::new(0, 0), &kinds, dims);
    let tile = RawTile::new(2, Color::rgba(10, 20, 30, 255));
    chunk.set_tile(1, 0, 0, tile);
    chunk.set_tile(2, 0, 1, tile);
    chunk.clear_layer(0);
    assert_eq!(chunk.get_tile(1, 0, 0), None);
    assert_eq!(chunk.get_tile(2, 1, 0), None);
}

#[test]
fn chunk_mesh_and_entity_handles() {
    let dims = Dimension3::new(2, 2, 1);
    let kinds: Vec<Option<LayerKind>> = vec![None];
    let mut chunk = Chunk::new(Point2::new(1, -1), &kinds, dims);
    assert_eq!(chunk.point(), Point2::new(1, -1));

    assert_eq!(chunk.mesh(), None);
    chunk.set_mesh(77);
    assert_eq!(chunk.mesh(), Some(77));
    assert_eq!(chunk.take_mesh(), Some(77));
    assert_eq!(chunk.mesh(), None);

    assert_eq!(chunk.get_entity(), None);
    assert_eq!(chunk.get_entities(), Vec::<u64>::new());
    chunk.set_entity(5);
    assert_eq!(chunk.get_entity(), Some(5));
    assert_eq!(chunk.get_entities(), vec![5]);
    assert_eq!(chunk.take_entity(), Some(5));
    assert_eq!(chunk.get_entity(), None);
}

#[test]
fn chunk_serializes_depth_major_slot_major() {
    let dims = Dimension3::new(2, 1, 1);
    let kinds = vec![Some(LayerKind::Dense), Some(LayerKind::Sparse)];
    let mut chunk = Chunk::new(Point2::new(0, 0), &kinds, dims);
    let a = RawTile::new(3, Color::rgba(1, 2, 3, 255));
    let b = RawTile::new(8, Color::rgba(4, 5, 6, 255));
    chunk.set_tile(0, 0, 0, a);
    chunk.set_tile(1, 0, 1, b);

    let (indices, colors) = chunk.tiles_to_renderer_parts(dims);
    // Dense slot first: both of its cells, four vertices each; then the
    // sparse slot's fixed-stride buffer over the same area.
    assert_eq!(indices.len(), 16);
    assert_eq!(colors.len(), 16);
    assert_eq!(&indices[0..4], &[3, 3, 3, 3]);
    assert_eq!(&indices[4..8], &[0, 0, 0, 0]);
    assert_eq!(&indices[8..12], &[0, 0, 0, 0]);
    assert_eq!(&indices[12..16], &[8, 8, 8, 8]);
    assert_eq!(colors[0], Color::rgba(1, 2, 3, 255));
    assert_eq!(colors[4], Color::rgba(0, 0, 0, 0));
    assert_eq!(colors[12], Color::rgba(4, 5, 6, 255));
}
