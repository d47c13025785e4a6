//! Lexer and parser for a small first-order-logic notation of axioms and schemas.
use vstd::prelude::*;

pub mod error;
pub mod error_laws;
pub mod text;
pub mod lexer;
pub mod lexer_laws;
pub mod lexer_round_trip;
pub mod lexer_join;
pub mod parser;
pub mod parser_laws;
pub mod parser_shapes;

verus! {
} // verus!
