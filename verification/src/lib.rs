//! The front end of a small scripting language: a scanner that turns source
//! text into tokens, and a recursive-descent parser that turns tokens into an
//! expression tree. Both are verified against what they are meant to
//! compute: the scanner against the token sequence that `lexical` defines, the
//! parser against the grammar in `grammar`.
pub mod ast;
pub mod diagnostic;
pub mod grammar;
pub mod lexical;
pub mod parser;
pub mod scanner;
pub mod text;
pub mod token;
