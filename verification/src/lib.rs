//! Linear combinations of R1CS variables, with verified ordering, merging and evaluation.
pub mod field;
pub mod model;
pub mod ops;
pub mod arith;
pub mod laws;
pub mod algebra;
pub mod text;
pub mod meaning;
