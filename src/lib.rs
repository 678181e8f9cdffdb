//! A decision procedure for quantifier-free equality with uninterpreted
//! functions: a congruence-closure engine and a satisfiability driver over
//! disjunctive normal form.
pub mod congruence;
pub mod fol;
pub mod normal_form;
pub mod solver;
pub mod parser;
