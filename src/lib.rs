//! A 9x9 Sudoku solver: a candidate grid, a single-writer store of that grid,
//! constraint elimination, naked pair and triple elimination, a backtracking
//! search and a validator, with their contracts proved.
#![allow(non_snake_case)]
#![allow(non_camel_case_types)]

pub mod grid;
pub mod store;
pub mod check;
pub mod constraints;
pub mod combine;
pub mod pairs;
pub mod triples;
pub mod search;
pub mod render;
pub mod reduction;
