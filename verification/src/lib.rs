//! Exact rational arithmetic on arbitrary-precision magnitudes.
//!
//! A magnitude is a little-endian sequence of 32-bit words holding a
//! non-negative integer; a rational number combines two magnitudes with a
//! sign tag. The `number` module implements addition, subtraction,
//! multiplication, division, comparison, equality and GCD-based reduction;
//! `laws` states and proves the algebraic properties of those operations.
//! `lexer` holds the token scaffolding of the expression front end.

pub mod euclid;
pub mod laws;
pub mod lexer;
pub mod magnitude;
pub mod number;
