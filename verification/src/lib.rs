//! The front end of a compiler for SOM, a small Smalltalk: a lexer that cuts
//! a text into tokens, and a parser that reads the class that the tokens
//! define. What both do is stated in contracts over the text, and proved.

pub mod compiler;
pub mod util;
pub mod vm;
