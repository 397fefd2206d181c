//! The character buffer that the lexer reads from.

pub mod peekable_buffer;
pub mod text;

pub use self::peekable_buffer::PeekableBuffer;
