//! A command-line calculator's core: tokenizing arithmetic expressions,
//! converting them to postfix form, the decisions of the interactive
//! session, and the history of calculations.

pub mod text;
pub mod calculator;
pub mod tokenizer;
pub mod postfix;
pub mod evaluation;
pub mod history;
pub mod session;
pub mod expression;
