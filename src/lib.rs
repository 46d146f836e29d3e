//! Front end of a small interpreter: a scanner that turns source text into
//! classified tokens, and an error-tolerant recursive-descent parser that
//! recognises `let` and `return` statements.

pub mod token;
pub mod lexer;
pub mod parser;
