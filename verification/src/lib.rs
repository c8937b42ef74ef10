//! A small JSON library: a single-pass lexer, a recursive-descent parser
//! that builds an owned value tree, and a streaming mode that hands out the
//! objects of a top-level array one at a time.
//!
//! Number tokens keep their source text verbatim; interpreting them as
//! numeric values is left to the caller.

pub mod laws;
pub mod lexer;
pub mod parser;
pub mod render;
pub mod scan;
pub mod token;
pub mod value;
