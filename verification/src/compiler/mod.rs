//! The lexer, the parser and the syntax tree, with what is stated and proved
//! of them.

pub mod ast;
pub mod grammar;
pub mod lexer;
pub mod lexical;
pub mod parser;
pub mod peekable_buffer;
pub mod shape;
pub mod spelling;
pub mod token;
pub mod written;

pub use self::lexer::Lexer;
pub use self::parser::Parser;
pub use self::token::{Symbol, Token};
