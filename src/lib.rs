//! A lexical scanner for a small C-like toy language: it turns source text
//! into a sequence of typed tokens for a downstream parser.
//!
//! `lexical` states the grammar as functions over character sequences,
//! `lexer` holds the executable scanner proved against it, and `laws` proves
//! properties of the scan as a whole.
use vstd::prelude::*;

pub mod laws;
pub mod lexer;
pub mod lexical;
pub mod token;

pub use lexer::Lexer;
pub use token::Token;

verus! {

} // verus!
