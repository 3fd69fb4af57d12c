pub mod number_theory;
pub mod rational;
pub mod rational_order;
pub mod text;
pub mod names;
pub mod lexer;
pub mod parser;
pub mod equivalence;
pub mod meaning;
pub mod symmetry;
pub mod roundtrip;
pub mod matrix;
pub mod solution;
pub mod gauss;
pub mod echelon;
pub mod frac;
pub mod reading;
pub mod labels;
pub mod soundness;
pub mod parametric;
pub mod solver;
pub mod display;
pub mod answers;
pub mod laws;
