//! Lexical analysis for a small C-like language: source text in, tokens with
//! their byte spans out, or the first byte that no rule accepts.

pub mod grammar;
pub mod laws;
pub mod lexer;
pub mod text;
pub mod util;
