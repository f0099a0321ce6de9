//! Game logic of a falling-sand block puzzle: tetromino pieces are broken into
//! grains that settle on a grid, slide like sand, and vanish when a single-colour
//! cluster of grains reaches from the left wall to the right wall.
pub mod constants;
pub mod random;
pub mod types;
pub mod board;
pub mod clear;
pub mod resources;
pub mod sand;
pub mod piece;
pub mod input;
pub mod spawn;
