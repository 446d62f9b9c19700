//! Propositional-logic formulas: tokenizing, syntactic validation,
//! precedence-based tree building, evaluation under an assignment, and a
//! brute-force tautology check over the free variables.

pub mod token;
pub mod lexer;
pub mod syntax;
pub mod tree;
pub mod builder;
pub mod taut;
pub mod pipeline;
pub mod laws;
