//! Generation and solvability engine for a pipe-rotation puzzle.
//!
//! A board is a grid of tiles whose open pipe stubs form a random spanning
//! tree rooted at a server tile. Players rotate tiles; the board counts as
//! solved when power flowing from the server reaches every terminal tile.
pub mod board;
pub mod direction;
pub mod game;
pub mod rng;
pub mod tile;
pub mod util;
