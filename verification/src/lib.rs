//! A calculator core for numbers that carry units: expressions are cut into
//! operands and operators, operands are resolved against a table of variables,
//! and the operators are folded in a fixed order of precedence.

pub mod error;
pub mod eval;
pub mod ieee;
pub mod names;
pub mod reduce;
pub mod scanner;
pub mod session;
pub mod symbols;
pub mod text;
pub mod value;
