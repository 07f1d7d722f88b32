//! The verified core of a small Breakout game: the level file format, the
//! mapping from tile codes to bricks, keyboard input and game state.

pub mod text;
pub mod level;
pub mod tiles;
pub mod input;
pub mod game;
pub mod timer;
