//! The front end of a small scripting language.
//!
//! [`scanner`] turns source text into tokens and [`parser`] turns the tokens
//! into the tree of one expression; both stop at the first fault and report
//! it as a [`lox::Error`].  [`lexicon`] and [`grammar`] say what the two
//! compute, and hold the laws proved of it.

pub mod text;
pub mod number;
pub mod token;
pub mod lox;
pub mod lexicon;
pub mod scanner;
pub mod expr;
pub mod grammar;
pub mod parser;
