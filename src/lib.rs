//! A lexer for a small C-like scripting language: it turns source text into
//! a finite sequence of tokens, with contracts that pin each token down.

pub mod token;
pub mod lexer;
pub mod repl;
pub mod laws;
