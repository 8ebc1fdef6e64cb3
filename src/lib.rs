//! Conway's Game of Life on a toroidal grid: the automaton rule, neighbour
//! counting with wrap-around coordinates, copy-then-swap stepping, and a
//! timer that gates steps.

pub mod grid;
pub mod sim;
pub mod laws;
