//! Evaluation of integer arithmetic expressions in infix notation.
//!
//! An input such as `3 + 5 * (10 - 2)` passes through three stages, each
//! with its own error type:
//!
//! - [`lexer`] scans characters into [`token::Token`]s,
//! - [`parser`] builds an [`ast::AST`] by recursive descent,
//! - [`eval`] computes the value of the tree.
//!
//! [`calc::calculate`] runs all three. Values are `i32`; a literal or a
//! result out of that range is an error, never wrapped. Division rounds
//! towards zero. Only the space character separates tokens. There is no
//! unary minus.
//!
//! What each stage does is stated by a function on sequences
//! ([`lexer::scan`], [`parser::expr_at`], [`eval::eval`]), and the
//! executable code is proved against it. The modules [`notation`],
//! [`spelling`] and [`spacing`] hold what is proved of those functions in
//! turn: that every tree can be written down and read back, and that spaces
//! between tokens do not matter.

pub mod ast;
pub mod calc;
pub mod eval;
pub mod lexer;
pub mod notation;
pub mod parser;
mod seq_facts;
pub mod spacing;
pub mod spelling;
pub mod token;
