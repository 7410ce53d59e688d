//! Conway's Game of Life on the integer lattice: cells, their Moore
//! neighbourhoods and the generation step, with contracts checked by Verus.

pub mod cell;
pub mod conways_error;
pub mod game;
pub mod controls;
