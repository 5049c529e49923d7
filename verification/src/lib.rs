//! A chunked 2D tile-grid engine.
//!
//! The map is a sparse world of fixed-size chunks, each holding depth-ordered
//! sprite layers.  Edits arrive in global tile coordinates, are routed to the
//! owning chunk and remapped to chunk-local indices, and the layer contents can
//! be packed into flat attribute buffers for a renderer.

pub mod assoc;
pub mod chunk;
pub mod coord;
pub mod layer;
pub mod tile;
pub mod tilemap;
