//! Tiles and their tint colors.

use crate::coord::Point2;
use vstd::prelude::*;

verus! {

/// An RGBA tint with 8-bit channels.  An alpha of exactly `0` is the sentinel
/// for "no tile present": a tile is never legitimately fully transparent yet
/// present.
#[derive(Clone, Copy, Debug, PartialEq, Eq, Hash, Structural)]
pub struct Color {
    /// Red channel.
    pub r: u8,
    /// Green channel.
    pub g: u8,
    /// Blue channel.
    pub b: u8,
    /// Alpha channel; `0` marks an absent tile.
    pub a: u8,
}

impl Color {
    /// Constructs a color from its four channels.
    pub fn rgba(r: u8, g: u8, b: u8, a: u8) -> (c: Color)
        ensures
            c == (Color { r, g, b, a }),
    {
        Color { r, g, b, a }
    }

    /// Opaque white, the default tint of a freshly built tile.
    pub fn white() -> (c: Color)
        ensures
            c == (Color { r: 255, g: 255, b: 255, a: 255 }),
    {
        Color { r: 255, g: 255, b: 255, a: 255 }
    }

    /// The fully zeroed color: the sentinel tint of an absent tile.
    pub fn clear() -> (c: Color)
        ensures
            c == (Color { r: 0, g: 0, b: 0, a: 0 }),
    {
        Color { r: 0, g: 0, b: 0, a: 0 }
    }

    /// Returns the alpha channel.
    pub fn a(&self) -> (a: u8)
        ensures
            a == self.a,
    {
        self.a
    }

    /// Replaces the alpha channel.
    pub fn set_a(&mut self, a: u8)
        ensures
            *final(self) == (Color { a, ..*old(self) }),
    {
        self.a = a;
    }
}

/// The zeroed color as a spec value.
pub open spec fn zero_color() -> Color {
    Color { r: 0, g: 0, b: 0, a: 0 }
}

/// The minimal renderable unit stored inside a layer: a sprite index into the
/// shared texture atlas and a tint.  A tint alpha of `0` marks the slot as
/// holding no tile.
#[derive(Clone, Copy, Debug, PartialEq, Eq, Hash, Structural)]
pub struct RawTile {
    /// Index of the sprite inside the texture atlas.
    pub index: usize,
    /// Tint applied to the sprite; alpha `0` means "absent".
    pub color: Color,
}

/// The stored form of an absent tile in dense storage.
pub open spec fn sentinel_tile() -> RawTile {
    RawTile { index: 0, color: zero_color() }
}

impl RawTile {
    /// Constructs a raw tile.
    pub fn new(index: usize, color: Color) -> (t: RawTile)
        ensures
            t == (RawTile { index, color }),
    {
        RawTile { index, color }
    }

    /// The stored form of an absent tile: sprite `0` with the zeroed tint.
    pub fn sentinel() -> (t: RawTile)
        ensures
            t == sentinel_tile(),
    {
        RawTile { index: 0, color: Color { r: 0, g: 0, b: 0, a: 0 } }
    }
}

/// An edit request: a global tile coordinate, the sprite to show there, the
/// z-order layer it belongs to, and a tint.  Tiles are built by callers and
/// consumed by insertion; they are never stored.
#[derive(Clone, Copy, Debug, PartialEq, Eq, Hash, Structural)]
pub struct Tile {
    /// Global tile-space coordinate.
    pub point: Point2,
    /// Index of the sprite inside the texture atlas.
    pub sprite_index: usize,
    /// The z-order layer the tile belongs to.
    pub z_order: usize,
    /// Tint applied to the sprite; an alpha of `0` clears the cell.
    pub tint: Color,
}

impl Tile {
    /// A tile at `point` showing `sprite_index` on layer `0` with a white
    /// tint.
    pub fn new(point: Point2, sprite_index: usize) -> (t: Tile)
        ensures
            t == (Tile {
                point,
                sprite_index,
                z_order: 0,
                tint: Color { r: 255, g: 255, b: 255, a: 255 },
            }),
    {
        Tile { point, sprite_index, z_order: 0, tint: Color::white() }
    }

    /// The raw stored form of this edit: its sprite index and tint.
    pub fn raw(&self) -> (r: RawTile)
        ensures
            r == (RawTile { index: self.sprite_index, color: self.tint }),
    {
        RawTile { index: self.sprite_index, color: self.tint }
    }
}

impl Default for Tile {
    /// A tile at the origin showing sprite `0` on layer `0` with a white
    /// tint.
    fn default() -> (t: Tile)
        ensures
            t == (Tile {
                point: Point2 { x: 0, y: 0 },
                sprite_index: 0,
                z_order: 0,
                tint: Color { r: 255, g: 255, b: 255, a: 255 },
            }),
    {
        Tile {
            point: Point2 { x: 0, y: 0 },
            sprite_index: 0,
            z_order: 0,
            tint: Color::white(),
        }
    }
}

} // verus!
