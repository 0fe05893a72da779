//! An algebraic expression simplifier: one bottom-up sweep of rewrite rules
//! (flattening, like-term combination, constant folding) over an expression tree.
pub mod ast;
pub mod rules;
pub mod simplifier;
pub mod laws;
