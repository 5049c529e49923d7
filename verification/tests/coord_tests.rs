use tilemap::coord::{
    point_to_chunk_point, point_to_local_point, to_coord, to_coord_3d, to_index, to_index_3d,
    Dimension2, Point2,
};

#[test]
fn index_round_trip_2d() {
    let width = 7;
    let height = 5;
    for y in 0..height {
        for x in 0..width {
            let index = to_index(x, y, width, height);
            assert_eq!(index as u32, y * width + x);
            assert_eq!(to_coord(index, width, height), (x, y));
        }
    }
}

#[test]
fn index_round_trip_3d() {
    let width = 4;
    let height = 3;
    let depth = 2;
    for z in 0..depth {
        for y in 0..height {
            for x in 0..width {
                let index = to_index_3d(x, y, z, width, height, depth);
                assert_eq!(to_coord_3d(index, width, height, depth), (x, y, z));
            }
        }
    }
}

#[test]
fn index_3d_rows_are_top_down() {
    // Row 0 of the linear order holds the cells with the highest y.
    let index = to_index_3d(0, 2, 0, 4, 3, 2);
    assert_eq!(index, 0);
    let index = to_index_3d(1, 0, 1, 4, 3, 2);
    assert_eq!(index, 12 + 2 * 4 + 1);
}

#[test]
fn chunk_point_floor_division() {
    let dims = Dimension2::new(32, 32);
    assert_eq!(point_to_chunk_point(Point2::new(15, 15), dims), Point2::new(0, 0));
    assert_eq!(point_to_chunk_point(Point2::new(16, 16), dims), Point2::new(1, 1));
    assert_eq!(point_to_chunk_point(Point2::new(-16, -16), dims), Point2::new(0, 0));
    assert_eq!(point_to_chunk_point(Point2::new(-17, -17), dims), Point2::new(-1, -1));
}

#[test]
fn local_point_within_chunk() {
    let dims = Dimension2::new(32, 32);
    let p = Point2::new(-17, 40);
    let cp = point_to_chunk_point(p, dims);
    assert_eq!(cp, Point2::new(-1, 1));
    let lp = point_to_local_point(p, cp, dims);
    assert_eq!(lp, Point2::new(31, 24));
    // p == dim * chunk + local - dim/2, per axis.
    assert_eq!(32 * cp.x + lp.x - 16, p.x);
    assert_eq!(32 * cp.y + lp.y - 16, p.y);
}

#[test]
fn check_point_centered_bounds() {
    let dims = Dimension2::new(3, 3);
    assert!(dims.check_point(Point2::new(0, 0)).is_ok());
    assert!(dims.check_point(Point2::new(1, 1)).is_ok());
    assert!(dims.check_point(Point2::new(-1, -1)).is_ok());
    assert!(dims.check_point(Point2::new(-2, -2)).is_err());
    assert!(dims.check_point(Point2::new(2, 2)).is_err());

    let one = Dimension2::new(1, 1);
    assert!(one.check_point(Point2::new(0, 0)).is_ok());
    assert!(one.check_point(Point2::new(1, 1)).is_err());
    assert!(one.check_point(Point2::new(-1, -1)).is_err());
}

#[test]
fn encode_point_is_row_major() {
    let dims = Dimension2::new(8, 4);
    assert_eq!(dims.encode_point_unchecked(Point2::new(3, 2)), 19);
    assert_eq!(dims.area(), 32);
}
