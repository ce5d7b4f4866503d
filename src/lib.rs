//! A recursive ("fractal") tic-tac-toe board: every cell of a 3x3 grid holds
//! either a mark or another board. The library models the board, finds the
//! innermost cell under a point, places marks, and lists the shapes that draw
//! a board, all on exact integer geometry.

pub mod board;
pub mod pick;
pub mod render;
