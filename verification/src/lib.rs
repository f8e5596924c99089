//! A two-phase Rubik's cube solver: a cube state model with a verified move
//! engine, coordinate encodings used as search keys, breadth-first phase
//! solvers, and a distance-table builder for guiding the search.

pub mod cube;
pub mod heuristic_table;
pub mod solver;
