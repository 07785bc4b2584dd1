//! Lexer and parser front end for a small Pascal-like teaching language.
pub mod lexer;
pub mod parser;
pub mod scan;
pub mod text;
pub mod token;
