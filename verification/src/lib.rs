//! A deduction engine for minesweeper-style games on generalized boards:
//! N-dimensional lattices with Moore neighborhoods and a cube-surface
//! manifold. The engine extracts per-clue counting constraints from a board,
//! reduces them with zero/full/subset-difference rules, and proves cells safe
//! by refutation with a DPLL satisfiability search over an exactly-k CNF
//! encoding. A conservative rational-risk estimator ranks cells when logic
//! yields nothing.
pub mod algorithms;
pub mod board;
mod randomness;
pub mod constraints;
pub mod estimator;
pub mod reducer;
pub mod topology;
