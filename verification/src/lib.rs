//! Tile grids by constraint propagation and backtracking search.
//!
//! A catalog of tile variants, each with four labelled edges and a selection
//! weight, is laid out on a rectangular grid so that every pair of abutting
//! edges is compatible. The search keeps, for every cell, the list of tiles
//! that are still possible there (the wave), narrows those lists by local
//! propagation, collapses the cell with the fewest possibilities to one
//! tile, and takes the last collapse back when a cell runs out of tiles.
//!
//! The entry point is [`solver::collapse_wave`]. What it returns is a
//! function of the catalog, the boundaries and the state of the generator
//! ([`solver::collapse_spec`]), and every grid that it returns is a solved
//! grid ([`soundness::valid_grid`]).

pub mod catalog;
pub mod consistency;
pub mod constraint;
pub mod decision;
pub mod edge;
pub mod grid;
pub mod laws;
pub mod propagate;
pub mod random;
pub mod select;
pub mod seqs;
pub mod solver;
pub mod soundness;
pub mod text;
pub mod tile;
pub mod wave;
