//! A Minesweeper board engine: a rectangular grid of cells, random mine
//! placement with an optional guaranteed-safe first click, and the
//! reveal / flag / unflag operations that drive a game to victory or defeat.

pub mod board;
pub mod cell;
pub mod packed_cell;
