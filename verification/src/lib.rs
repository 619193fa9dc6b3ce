//! A verified minesweeper board engine: a rectangular grid of cells that
//! places its mines at random on the first reveal, away from the clicked
//! cell and its neighbours, and answers the three player actions - reveal
//! with its cascading flood fill, toggle-mark, and the flag-gated chord
//! reveal - with contracts that pin down the exact effect of each.

pub mod cell;
pub mod counts;
pub mod game_state;
pub mod position;
mod sample;
