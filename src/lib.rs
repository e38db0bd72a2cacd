//! Nimber arithmetic: the values below `2^(2^k)` with nim-addition (XOR) and
//! nim-multiplication, which make them a field.
//!
//! [`field`] defines the field as a mathematical model over 128-bit patterns
//! and proves its laws; [`engine`] computes products, squares, square roots
//! and inverses recursively on the halves of a value; [`nimber`] wraps the
//! unsigned machine words as [`Nimber`] values with the usual operators;
//! [`laws`] states the field laws over those values.
use vstd::prelude::*;

pub mod engine;
pub mod field;
pub mod laws;
pub mod nimber;

pub use nimber::{Nim128, Nim16, Nim32, Nim64, Nim8, Nimber, Word};
