//! A verified JSON text processor: a tokenizer that turns raw character
//! input into a sequence of lexical tokens, and a recursive-descent parser
//! that turns that sequence into a tree of typed JSON values.

pub mod grammar;
pub mod layout;
pub mod parser;
pub mod tokenizer;
