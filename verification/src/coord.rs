//! Coordinate spaces and the transforms between them.
//!
//! Three coordinate systems are in play: global tile space (signed, centered
//! on the origin), chunk space (signed, one unit per chunk), and the local
//! linear index inside a chunk (unsigned row-major order).

use vstd::arithmetic::div_mod::{
    lemma_fundamental_div_mod, lemma_fundamental_div_mod_converse, lemma_mod_bound,
};
use vstd::prelude::*;

verus! {

/// A signed 2D coordinate, used both for global tile points and chunk points.
#[derive(Clone, Copy, Debug, PartialEq, Eq, Hash, Structural)]
pub struct Point2 {
    /// Coordinate on the horizontal axis.
    pub x: i32,
    /// Coordinate on the vertical axis.
    pub y: i32,
}

impl Point2 {
    /// Constructs a point from its two coordinates.
    pub fn new(x: i32, y: i32) -> (p: Point2)
        ensures
            p == (Point2 { x, y }),
    {
        Point2 { x, y }
    }
}

/// A signed 3D coordinate: a plane position plus a depth level.
#[derive(Clone, Copy, Debug, PartialEq, Eq, Hash, Structural)]
pub struct Point3 {
    /// Coordinate on the horizontal axis.
    pub x: i32,
    /// Coordinate on the vertical axis.
    pub y: i32,
    /// Depth level.
    pub z: i32,
}

impl Point3 {
    /// Constructs a point from its three coordinates.
    pub fn new(x: i32, y: i32, z: i32) -> (p: Point3)
        ensures
            p == (Point3 { x, y, z }),
    {
        Point3 { x, y, z }
    }
}

/// Width and height of a rectangular grid, in cells.  Both sides are nonzero.
#[derive(Clone, Copy, Debug, PartialEq, Eq, Hash, Structural)]
pub struct Dimension2 {
    /// Number of cells on the horizontal axis.
    pub width: u32,
    /// Number of cells on the vertical axis.
    pub height: u32,
}

/// Width, height and depth of a 3D grid of cells.  All sides are nonzero.
#[derive(Clone, Copy, Debug, PartialEq, Eq, Hash, Structural)]
pub struct Dimension3 {
    /// Number of cells on the horizontal axis.
    pub width: u32,
    /// Number of cells on the vertical axis.
    pub height: u32,
    /// Number of depth levels.
    pub depth: u32,
}

/// The error returned when a coordinate falls outside declared bounds.
#[derive(Clone, Copy, Debug, PartialEq, Eq, Hash, Structural)]
pub enum DimensionError {
    /// The point lies outside the centered bounds of the dimension.
    OutOfBounds,
}

/// Whether `p` lies inside a grid of dimension `d` centered on the origin:
/// each axis coordinate must lie in `[-side/2, side - side/2)`.
pub open spec fn point_in_dimension2(p: Point2, d: Dimension2) -> bool {
    &&& 0 <= p.x as int + d.width as int / 2 < d.width as int
    &&& 0 <= p.y as int + d.height as int / 2 < d.height as int
}

impl Dimension2 {
    /// Constructs a dimension; both sides must be nonzero.
    pub fn new(width: u32, height: u32) -> (d: Dimension2)
        requires
            width >= 1,
            height >= 1,
        ensures
            d == (Dimension2 { width, height }),
    {
        Dimension2 { width, height }
    }

    /// Checks that a point lies inside these bounds, centered on the origin.
    pub fn check_point(&self, point: Point2) -> (r: Result<(), DimensionError>)
        ensures
            r is Ok <==> point_in_dimension2(point, *self),
    {
        let half_w = (self.width / 2) as i64;
        let half_h = (self.height / 2) as i64;
        let sx = point.x as i64 + half_w;
        let sy = point.y as i64 + half_h;
        if 0 <= sx && sx < self.width as i64 && 0 <= sy && sy < self.height as i64 {
            Ok(())
        } else {
            Err(DimensionError::OutOfBounds)
        }
    }

    /// Encodes a chunk-local point as a linear index in row-major order.
    pub fn encode_point_unchecked(&self, point: Point2) -> (index: usize)
        requires
            0 <= point.x < self.width as int,
            0 <= point.y < self.height as int,
            self.width as int * self.height as int <= usize::MAX,
        ensures
            index == linear_index(point.x as int, point.y as int, self.width as int),
            index < self.width as int * self.height as int,
    {
        to_index(point.x as u32, point.y as u32, self.width, self.height)
    }

    /// The number of cells in the grid.
    pub fn area(&self) -> (a: usize)
        requires
            self.width as int * self.height as int <= usize::MAX,
        ensures
            a == self.width as int * self.height as int,
    {
        (self.width as usize) * (self.height as usize)
    }
}

impl Dimension3 {
    /// Constructs a dimension; all sides must be nonzero.
    pub fn new(width: u32, height: u32, depth: u32) -> (d: Dimension3)
        requires
            width >= 1,
            height >= 1,
            depth >= 1,
        ensures
            d == (Dimension3 { width, height, depth }),
    {
        Dimension3 { width, height, depth }
    }
}

/// The row-major linear index of `(x, y)` in a grid `width` cells wide.
pub open spec fn linear_index(x: int, y: int, width: int) -> int {
    y * width + x
}

/// Converts a 2D coordinate to its row-major linear index.
pub fn to_index(x: u32, y: u32, width: u32, height: u32) -> (index: usize)
    requires
        x < width,
        y < height,
        width as int * height as int <= usize::MAX,
    ensures
        index == linear_index(x as int, y as int, width as int),
        index < width as int * height as int,
{
    proof {
        assert(y as int * width as int + x < width as int * height as int) by (nonlinear_arith)
            requires
                x < width as int,
                y < height as int,
                0 <= x,
                0 <= y,
        ;
    }
    (y as usize) * (width as usize) + (x as usize)
}

/// Recovers the 2D coordinate from a row-major linear index; the exact
/// inverse of [`to_index`].
pub fn to_coord(index: usize, width: u32, height: u32) -> (p: (u32, u32))
    requires
        width >= 1,
        index < width as int * height as int,
    ensures
        p.0 == index as int % width as int,
        p.1 == index as int / width as int,
        p.0 < width,
        p.1 < height,
        linear_index(p.0 as int, p.1 as int, width as int) == index,
{
    let x = index % (width as usize);
    let y = index / (width as usize);
    proof {
        lemma_fundamental_div_mod(index as int, width as int);
        lemma_mod_bound(index as int, width as int);
        assert(y < height as int) by (nonlinear_arith)
            requires
                index as int == width as int * (index as int / width as int) + index as int
                    % width as int,
                y == index as int / width as int,
                0 <= index as int % width as int,
                (index as int) < width as int * height as int,
                width as int >= 1,
                0 <= index as int,
        ;
        assert(y as int * width as int + x as int == index) by (nonlinear_arith)
            requires
                index as int == width as int * (index as int / width as int) + index as int
                    % width as int,
                y == index as int / width as int,
                x == index as int % width as int,
        ;
    }
    (x as u32, y as u32)
}

/// The linear index of `(x, y, z)` in a `width x height x depth` grid whose
/// rows are stored top-down: row `0` holds the cells with `y == height - 1`.
pub open spec fn linear_index_3d(x: int, y: int, z: int, width: int, height: int) -> int {
    z * (width * height) + (height - 1 - y) * width + x
}

/// Converts a 3D coordinate to its linear index, inverting the top-down row
/// convention that [`to_coord_3d`] uses.
pub fn to_index_3d(x: u32, y: u32, z: u32, width: u32, height: u32, depth: u32) -> (index: usize)
    requires
        x < width,
        y < height,
        z < depth,
        width as int * height as int * depth as int <= usize::MAX,
    ensures
        index == linear_index_3d(x as int, y as int, z as int, width as int, height as int),
        index < width as int * height as int * depth as int,
{
    proof {
        assert(width as int * height as int <= width as int * height as int * depth as int
            && (z as int * (width as int * height as int) + (height as int - 1 - y as int)
            * width as int + x as int) < width as int * height as int * depth as int
            && 0 <= (height as int - 1 - y as int) * width as int) by (nonlinear_arith)
            requires
                x < width as int,
                y < height as int,
                z < depth as int,
                0 <= x,
                0 <= y,
                0 <= z,
                1 <= width as int,
                1 <= height as int,
                1 <= depth as int,
        ;
    }
    let area = (width as usize) * (height as usize);
    let row = (height - 1 - y) as usize;
    (z as usize) * area + row * (width as usize) + (x as usize)
}

/// Recovers the 3D coordinate from a linear index.  Rows are stored top-down,
/// so the vertical coordinate is `height - 1 - row`; [`to_index_3d`] is the
/// exact inverse.
pub fn to_coord_3d(index: usize, width: u32, height: u32, depth: u32) -> (p: (u32, u32, u32))
    requires
        width >= 1,
        height >= 1,
        width as int * height as int <= usize::MAX,
        index < width as int * height as int * depth as int,
    ensures
        p.2 == index as int / (width as int * height as int),
        p.1 == height - 1 - (index as int % (width as int * height as int)) / width as int,
        p.0 == (index as int % (width as int * height as int)) % width as int,
        p.0 < width,
        p.1 < height,
        p.2 < depth,
        linear_index_3d(p.0 as int, p.1 as int, p.2 as int, width as int, height as int)
            == index,
{
    let area = (width as usize) * (height as usize);
    proof {
        assert(1 <= width as int * height as int) by (nonlinear_arith)
            requires
                1 <= width as int,
                1 <= height as int,
        ;
    }
    let z = index / area;
    let rem = index % area;
    let row = rem / (width as usize);
    let x = rem % (width as usize);
    proof {
        let wi = width as int;
        let hi = height as int;
        let ai = wi * hi;
        lemma_fundamental_div_mod(index as int, ai);
        lemma_mod_bound(index as int, ai);
        assert(z < depth as int) by (nonlinear_arith)
            requires
                index as int == ai * (index as int / ai) + index as int % ai,
                z == index as int / ai,
                0 <= index as int % ai,
                (index as int) < ai * depth as int,
                ai >= 1,
                0 <= index as int,
        ;
        lemma_fundamental_div_mod(rem as int, wi);
        lemma_mod_bound(rem as int, wi);
        assert(row < hi) by (nonlinear_arith)
            requires
                rem as int == wi * (rem as int / wi) + rem as int % wi,
                row == rem as int / wi,
                0 <= rem as int % wi,
                (rem as int) < wi * hi,
                wi >= 1,
                0 <= rem as int,
        ;
        assert(z as int * (wi * hi) + row as int * wi + x as int == index) by (nonlinear_arith)
            requires
                index as int == (wi * hi) * (index as int / (wi * hi)) + index as int % (wi * hi),
                z == index as int / (wi * hi),
                rem == index as int % (wi * hi),
                rem as int == wi * (rem as int / wi) + rem as int % wi,
                row == rem as int / wi,
                x == rem as int % wi,
        ;
    }
    let y = height - 1 - (row as u32);
    (x as u32, y, z as u32)
}

/// The chunk-space coordinate owning position `p` on an axis of chunk side
/// `len`: floor division of the recentered coordinate, `(p + len/2) div len`.
pub open spec fn chunk_coord(p: int, len: int) -> int
    recommends
        len >= 1,
{
    (p + len / 2) / len
}

/// The chunk-local coordinate of position `p` on an axis of chunk side `len`:
/// the remainder `(p + len/2) mod len`, always in `[0, len)`.
pub open spec fn local_coord(p: int, len: int) -> int
    recommends
        len >= 1,
{
    (p + len / 2) % len
}

/// Floor division of `n` by the positive divisor `d`, with the remainder.
fn div_rem_floor(n: i64, d: u32) -> (qr: (i64, u32))
    requires
        d >= 1,
        -0x4000_0000_0000_0000 <= n <= 0x4000_0000_0000_0000,
    ensures
        qr.0 == n as int / d as int,
        qr.1 == n as int % d as int,
        n == qr.0 * d + qr.1,
{
    let dd = d as u64;
    if n >= 0 {
        let m = n as u64;
        let q = m / dd;
        let r = m % dd;
        proof {
            lemma_fundamental_div_mod(n as int, d as int);
        }
        (q as i64, r as u32)
    } else {
        let m = (-n) as u64;
        let q0 = m / dd;
        let r0 = m % dd;
        proof {
            lemma_fundamental_div_mod(m as int, dd as int);
        }
        if r0 == 0 {
            proof {
                assert(n as int == (-(q0 as int)) * d as int + 0) by (nonlinear_arith)
                    requires
                        m as int == dd as int * (m as int / dd as int) + m as int % dd as int,
                        q0 == m as int / dd as int,
                        m as int % dd as int == 0,
                        n as int == -(m as int),
                        dd == d,
                ;
                lemma_fundamental_div_mod_converse(n as int, d as int, -(q0 as int), 0);
            }
            (-(q0 as i64), 0)
        } else {
            proof {
                assert(n as int == (-(q0 as int) - 1) * d as int + (d as int - r0 as int))
                    by (nonlinear_arith)
                    requires
                        m as int == dd as int * (m as int / dd as int) + m as int % dd as int,
                        q0 == m as int / dd as int,
                        r0 == m as int % dd as int,
                        n as int == -(m as int),
                        dd == d,
                ;
                lemma_fundamental_div_mod_converse(
                    n as int,
                    d as int,
                    -(q0 as int) - 1,
                    d as int - r0 as int,
                );
            }
            (-(q0 as i64) - 1, d - (r0 as u32))
        }
    }
}

/// The chunk coordinate of an `i32` point always fits back in an `i32`.
pub proof fn lemma_chunk_coord_fits(p: int, len: int)
    requires
        -0x8000_0000 <= p < 0x8000_0000,
        1 <= len <= 0xffff_ffff,
    ensures
        -0x8000_0000 <= chunk_coord(p, len) < 0x8000_0000,
{
    let half = len / 2;
    let n = p + half;
    lemma_fundamental_div_mod(n, len);
    lemma_mod_bound(n, len);
    assert(-0x8000_0000 <= n / len < 0x8000_0000) by (nonlinear_arith)
        requires
            n == len * (n / len) + n % len,
            0 <= n % len < len,
            1 <= len,
            0 <= half,
            2 * half <= len,
            -0x8000_0000 <= p < 0x8000_0000,
            n == p + half,
    ;
}

/// Maps a global tile point to the chunk-space coordinate of the chunk that
/// owns it, using centered-origin floor division on each axis.
pub fn point_to_chunk_point(point: Point2, chunk_dimensions: Dimension2) -> (cp: Point2)
    requires
        chunk_dimensions.width >= 1,
        chunk_dimensions.height >= 1,
    ensures
        cp.x == chunk_coord(point.x as int, chunk_dimensions.width as int),
        cp.y == chunk_coord(point.y as int, chunk_dimensions.height as int),
{
    let w = chunk_dimensions.width;
    let h = chunk_dimensions.height;
    let nx = point.x as i64 + ((w / 2) as i64);
    let ny = point.y as i64 + ((h / 2) as i64);
    let (qx, _rx) = div_rem_floor(nx, w);
    let (qy, _ry) = div_rem_floor(ny, h);
    proof {
        lemma_chunk_coord_fits(point.x as int, w as int);
        lemma_chunk_coord_fits(point.y as int, h as int);
    }
    Point2 { x: qx as i32, y: qy as i32 }
}

/// Maps a global tile point to its local coordinate inside the owning chunk:
/// `p - len * chunk + len/2` per axis, always in `[0, len)`.
pub fn point_to_local_point(point: Point2, chunk_point: Point2, chunk_dimensions: Dimension2) -> (lp:
    Point2)
    requires
        1 <= chunk_dimensions.width <= 0x8000_0000,
        1 <= chunk_dimensions.height <= 0x8000_0000,
        chunk_point.x == chunk_coord(point.x as int, chunk_dimensions.width as int),
        chunk_point.y == chunk_coord(point.y as int, chunk_dimensions.height as int),
    ensures
        lp.x == local_coord(point.x as int, chunk_dimensions.width as int),
        lp.y == local_coord(point.y as int, chunk_dimensions.height as int),
        0 <= lp.x < chunk_dimensions.width as int,
        0 <= lp.y < chunk_dimensions.height as int,
        lp.x == point.x as int - chunk_dimensions.width as int * chunk_point.x as int
            + chunk_dimensions.width as int / 2,
        lp.y == point.y as int - chunk_dimensions.height as int * chunk_point.y as int
            + chunk_dimensions.height as int / 2,
{
    let w = chunk_dimensions.width;
    let h = chunk_dimensions.height;
    let nx = point.x as i64 + ((w / 2) as i64);
    let ny = point.y as i64 + ((h / 2) as i64);
    let (_qx, rx) = div_rem_floor(nx, w);
    let (_qy, ry) = div_rem_floor(ny, h);
    proof {
        lemma_mod_bound(nx as int, w as int);
        lemma_mod_bound(ny as int, h as int);
    }
    Point2 { x: rx as i32, y: ry as i32 }
}

/// Law: converting a coordinate to its row-major linear index and back
/// recovers the coordinate, for every in-range coordinate.
pub proof fn lemma_index_round_trip(x: int, y: int, width: int, height: int)
    requires
        0 <= x < width,
        0 <= y < height,
    ensures
        linear_index(x, y, width) % width == x,
        linear_index(x, y, width) / width == y,
{
    lemma_fundamental_div_mod_converse(y * width + x, width, y, x);
}

/// Law: converting a 3D coordinate to its linear index and back recovers the
/// coordinate, for every in-range coordinate, including the top-down row
/// convention on the vertical axis.
pub proof fn lemma_index_round_trip_3d(x: int, y: int, z: int, width: int, height: int, depth: int)
    requires
        0 <= x < width,
        0 <= y < height,
        0 <= z < depth,
    ensures
        linear_index_3d(x, y, z, width, height) / (width * height) == z,
        height - 1 - (linear_index_3d(x, y, z, width, height) % (width * height)) / width == y,
        (linear_index_3d(x, y, z, width, height) % (width * height)) % width == x,
{
    let row = height - 1 - y;
    let rem = row * width + x;
    let i = linear_index_3d(x, y, z, width, height);
    assert(0 <= rem < width * height) by (nonlinear_arith)
        requires
            0 <= x < width,
            0 <= row < height,
            rem == row * width + x,
    ;
    lemma_fundamental_div_mod_converse(i, width * height, z, rem);
    lemma_fundamental_div_mod_converse(rem, width, row, x);
}

/// Law: on each axis, a point decomposes uniquely into its chunk coordinate
/// and its local coordinate, and the local coordinate always lies in
/// `[0, len)`.  This is the floor-division, centered-origin convention.
pub proof fn lemma_chunk_local_decomposition(p: int, len: int)
    requires
        1 <= len,
    ensures
        p == len * chunk_coord(p, len) + local_coord(p, len) - len / 2,
        0 <= local_coord(p, len) < len,
{
    lemma_fundamental_div_mod(p + len / 2, len);
    lemma_mod_bound(p + len / 2, len);
}


/// Law: the decomposition of a point into its chunk coordinate and local
/// linear index is injective: two points agreeing on both are equal.
pub proof fn lemma_decomposition_injective(p: Point2, q: Point2, w: int, h: int)
    requires
        1 <= w,
        1 <= h,
        chunk_coord(p.x as int, w) == chunk_coord(q.x as int, w),
        chunk_coord(p.y as int, h) == chunk_coord(q.y as int, h),
        linear_index(local_coord(p.x as int, w), local_coord(p.y as int, h), w) == linear_index(
            local_coord(q.x as int, w),
            local_coord(q.y as int, h),
            w,
        ),
    ensures
        p == q,
{
    let lxp = local_coord(p.x as int, w);
    let lyp = local_coord(p.y as int, h);
    let lxq = local_coord(q.x as int, w);
    let lyq = local_coord(q.y as int, h);
    lemma_mod_bound(p.x as int + w / 2, w);
    lemma_mod_bound(q.x as int + w / 2, w);
    lemma_mod_bound(p.y as int + h / 2, h);
    lemma_mod_bound(q.y as int + h / 2, h);
    lemma_fundamental_div_mod_converse(lyp * w + lxp, w, lyp, lxp);
    lemma_fundamental_div_mod_converse(lyq * w + lxq, w, lyq, lxq);
    assert(lxp == lxq && lyp == lyq);
    lemma_chunk_local_decomposition(p.x as int, w);
    lemma_chunk_local_decomposition(q.x as int, w);
    lemma_chunk_local_decomposition(p.y as int, h);
    lemma_chunk_local_decomposition(q.y as int, h);
}

} // verus!
