//! A scanner for a small language that describes logic gates.
//!
//! [`tokenize`] reads source text and gives its tokens. The rules that it
//! follows are in [`rules`], the grammar of a gate header in [`header`], and
//! what is proved of every scan in [`laws`].

pub mod bytes;
pub mod header;
pub mod laws;
pub mod lexer;
pub mod numeral;
pub mod rules;
pub mod token;

pub use lexer::{tokenize, tokenize_bytes};
pub use token::{LexError, Tokens};
