use vstd::prelude::*;

verus! {

/// Width of one cell in pixels, consumed only by a rendering front end.
pub const UNIT_WIDTH: u32 = 40;

/// Height of one cell in pixels, consumed only by a rendering front end.
pub const UNIT_HEIGHT: u32 = 40;

/// Number of columns of the playing field.
pub const X_LENGTH: u32 = 10;

/// Number of visible rows of the playing field; a locked cell at or above
/// this row ends the game.
pub const Y_LENGTH: u32 = 18;

/// Number of rows of occupancy storage. The rows at and above `Y_LENGTH` are
/// hidden headroom, so that a piece can lock at its spawn position, which
/// reaches two rows above the visible field.
pub const Y_STORE: u32 = 25;

/// Width of the rendered field in pixels.
pub const SCREEN_WIDTH: u32 = UNIT_WIDTH * X_LENGTH;

/// Height of the rendered field in pixels.
pub const SCREEN_HEIGHT: u32 = UNIT_HEIGHT * Y_LENGTH;

/// Number of cosmetic color indices a spawned piece can carry.
pub const COLOR_COUNT: usize = 6;

} // verus!
