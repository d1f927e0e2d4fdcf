//! Tetris game logic: the playing field, the falling blocks, and the
//! rules that move, rotate, lock and clear them.

mod chance;
pub mod components;
pub mod systems;
pub mod grid;
pub mod blocks;
