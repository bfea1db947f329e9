use vstd::prelude::*;

pub mod ast;
pub mod lexer;
pub mod parser;
pub mod printer;
pub mod roundtrip;
pub mod roundtrip_parsed;
pub mod roundtrip_text;
pub mod runtime;
pub mod text;
pub mod types;
pub mod watch;

verus! {

/// A parse (or lex) error: a message and the character range it is about.
#[derive(Debug, PartialEq, Eq)]
pub struct ParseError {
    pub message: String,
    pub span: std::ops::Range<usize>,
}

} // verus!
