//! A small translator for a line-oriented toy language: a scanner that turns
//! source lines into classified tokens, and a generator that turns tokens into
//! a textual intermediate-representation module.
pub mod generator;
pub mod scanner;
pub mod token;
