use tilemap::layer::{
    dense_tiles_to_attributes, sparse_tiles_to_attributes, DenseLayer, SparseLayer,
};
use tilemap::tile::{Color, RawTile};

fn full_dense(area: usize) -> DenseLayer {
    let mut tiles = Vec::new();
    for _ in 0..area {
        tiles.push(RawTile::sentinel());
    }
    DenseLayer::new(tiles)
}

#[test]
fn dense_sparse_equivalence_scenario() {
    // The same set/remove sequence applied to both backends answers every
    // in-capacity read identically after every step.
    let area = 25;
    let mut dense = full_dense(area);
    let mut sparse = SparseLayer::new(Vec::new());

    let a = RawTile::new(1, Color::rgba(9, 9, 9, 255));
    let b = RawTile::new(2, Color::white());
    let ghostly = RawTile::new(3, Color::rgba(5, 5, 5, 0));

    let steps: Vec<(bool, usize, RawTile)> = vec![
        (true, 0, a),
        (true, 7, b),
        (true, 24, a),
        (false, 0, a),
        (true, 7, ghostly),
        (false, 3, a),
        (true, 0, b),
    ];
    for (is_set, index, tile) in steps {
        if is_set {
            dense.set_tile(index, tile);
            sparse.set_tile(index, tile);
        } else {
            dense.remove_tile(index);
            sparse.remove_tile(index);
        }
        for i in 0..area {
            assert_eq!(dense.get_tile(i), sparse.get_tile(i));
        }
    }
}

#[test]
fn dense_does_not_distinguish_removed_from_never_set() {
    let mut dense = full_dense(4);
    assert_eq!(dense.get_tile(1), None);
    dense.set_tile(1, RawTile::new(5, Color::white()));
    dense.remove_tile(1);
    assert_eq!(dense.get_tile(1), None);
    assert_eq!(dense.get_tile(2), None);
}

#[test]
fn sparse_serialization_zero_fill() {
    let area = 9;
    let empty = SparseLayer::new(Vec::new());
    let (indices, colors) = sparse_tiles_to_attributes(area, &empty.tiles);
    assert_eq!(indices.len(), 4 * area);
    assert_eq!(colors.len(), 4 * area);
    for k in 0..4 * area {
        assert_eq!(indices[k], 0);
        assert_eq!(colors[k], Color::rgba(0, 0, 0, 0));
    }

    // Setting one tile at index 4 changes exactly the window 16..20.
    let tile = RawTile::new(6, Color::rgba(1, 2, 3, 255));
    let mut one = SparseLayer::new(Vec::new());
    one.set_tile(4, tile);
    let (indices, colors) = sparse_tiles_to_attributes(area, &one.tiles);
    for k in 0..4 * area {
        if (16..20).contains(&k) {
            assert_eq!(indices[k], 6);
            assert_eq!(colors[k], Color::rgba(1, 2, 3, 255));
        } else {
            assert_eq!(indices[k], 0);
            assert_eq!(colors[k], Color::rgba(0, 0, 0, 0));
        }
    }
}

#[test]
fn dense_serialization_emits_every_slot() {
    let mut tiles = Vec::new();
    tiles.push(RawTile::new(4, Color::white()));
    tiles.push(RawTile::sentinel());
    let dense = DenseLayer::new(tiles);
    let (indices, colors) = dense_tiles_to_attributes(&dense.tiles);
    assert_eq!(indices, vec![4, 4, 4, 4, 0, 0, 0, 0]);
    assert_eq!(colors.len(), 8);
    assert_eq!(colors[0], Color::white());
    assert_eq!(colors[4], Color::rgba(0, 0, 0, 0));
}

#[test]
fn sparse_set_with_sentinel_alpha_removes() {
    let mut sparse = SparseLayer::new(Vec::new());
    sparse.set_tile(3, RawTile::new(1, Color::white()));
    assert_eq!(sparse.get_tile_indices(), vec![3]);
    sparse.set_tile(3, RawTile::new(1, Color::rgba(0, 0, 0, 0)));
    assert_eq!(sparse.get_tile(3), None);
    assert_eq!(sparse.get_tile_indices(), Vec::<usize>::new());
}

#[test]
fn dense_tile_indices_in_increasing_order() {
    let mut dense = full_dense(6);
    dense.set_tile(4, RawTile::new(1, Color::white()));
    dense.set_tile(1, RawTile::new(2, Color::white()));
    assert_eq!(dense.get_tile_indices(), vec![1, 4]);
}

#[test]
fn dense_out_of_bounds_set_is_noop() {
    let mut dense = full_dense(4);
    dense.set_tile(99, RawTile::new(1, Color::white()));
    for i in 0..4 {
        assert_eq!(dense.get_tile(i), None);
    }
    assert_eq!(dense.get_tile(99), None);
}

#[test]
fn sparse_accepts_any_index() {
    let mut sparse = SparseLayer::new(Vec::new());
    sparse.set_tile(1000, RawTile::new(7, Color::white()));
    assert_eq!(sparse.get_tile(1000), Some(RawTile::new(7, Color::white())));
}
