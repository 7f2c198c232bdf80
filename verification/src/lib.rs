//! A verified interpreter for a symbolic variant of the FRACTRAN rewrite
//! language: multisets of named tokens are encoded as prime-product integers,
//! rewrite rules compile to fractions of such integers, and execution
//! repeatedly applies the first applicable fraction until none applies.
pub mod arith;
pub mod ast;
pub mod codec;
pub mod engine;
pub mod parse;
pub mod util;
