pub mod grammar;
pub mod lex;
pub mod parse;
