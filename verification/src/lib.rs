//! Colourful: a small combinatory-logic language in which colours are the
//! combinators. Yellow is the identity (I), Red the constant combinator (K)
//! and Blue the substitution combinator (S); the secondary colours are fixed
//! applications of the primary ones.

pub mod colour;
pub mod expr;
pub mod eval;
pub mod syntax;
pub mod text;
