//! A tokenizer for a small Forth dialect.
//!
//! The crate offers two independent front ends over the same source text:
//!
//! * [`tokenizer`] — a delimiter-splitting tokenizer that recognises words,
//!   numbers, colon definitions, string commands and the two comment forms by
//!   searching for the next delimiter character.
//! * [`lexer`] — a table-driven scanner: a deterministic finite automaton
//!   runner that performs maximal-munch lexical analysis with explicit
//!   mark/backtrack position tracking and per-accepting-state dispatch.
//!
//! Tokens of the splitting tokenizer borrow slices of the source buffer; the
//! scanner's tokens copy the matched span. Both front ends are specified
//! against sequence-of-character models of the input.

pub mod chars;
pub mod lexer;
pub mod numbers;
pub mod tokenizer;

pub use tokenizer::ForthToken;
pub use tokenizer::ForthTokenizer;
pub use tokenizer::ForthTokenizerIntoIterator;
