use vstd::prelude::*;

pub mod geom;
pub mod stroke;
pub mod tile_ops;
pub mod layer;
pub mod canvas;
pub mod messages;
pub mod codec;
pub mod room;

verus! {

/// Side length, in pixels, of the square tiles that partition the drawing
/// plane. Positive, and fixed for the lifetime of the process.
pub const TILE_SIZE: i32 = 100;

/// Largest number of layers a canvas may hold; layer ids range over
/// `0 .. MAX_LAYERS`.
pub const MAX_LAYERS: u8 = 100;

/// How many of the most recent strokes an undo request searches through.
pub const UNDO_SEARCH_DEPTH: usize = 100;

} // verus!
