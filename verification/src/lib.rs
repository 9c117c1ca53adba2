//! A lexical scanner for a small declarative, assignment-style
//! mini-language (`name: type = value`).
//!
//! The scanner turns raw source bytes into a stream of typed tokens with
//! byte-offset spans and line information.  It never copies source text:
//! a token identifies its lexeme by a half-open span into the source.

pub mod laws;
pub mod lexer;
pub mod scan;
pub mod token;

