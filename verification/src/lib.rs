//! Parser combinators over string slices.
//!
//! A parser takes an input and either succeeds, with a value and the input
//! that is left, or fails, handing back the input it could not match.
//! Primitive parsers read the input directly; combinators build new parsers
//! from given ones.

pub mod combinators;
pub mod element;
pub mod laws;
pub mod parser;
pub mod primitives;
pub mod text;
