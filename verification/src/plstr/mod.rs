//! A small expression language for build rules.

pub mod lex;
