pub mod arith;
pub mod laws;
pub mod solver;
