use vstd::prelude::*;

verus! {

/// Width of the board in whole minos.
pub const BASE_BOARD_WIDTH: i32 = 10;

/// Height of the board in whole minos.
pub const BASE_BOARD_HEIGHT: i32 = 22;

/// Each mino is split into a square of `PIECE_SUBDIVISION` by `PIECE_SUBDIVISION` grains.
pub const PIECE_SUBDIVISION: i32 = 8;

/// Width of the board in grains.
pub const BOARD_WIDTH: i32 = BASE_BOARD_WIDTH * PIECE_SUBDIVISION;

/// Height of the board in grains.
pub const BOARD_HEIGHT: i32 = BASE_BOARD_HEIGHT * PIECE_SUBDIVISION;

/// Number of upcoming pieces offered to the player.
pub const NUM_CANDIDATES: usize = 2;

} // verus!
