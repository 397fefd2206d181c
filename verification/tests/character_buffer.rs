use som::compiler::peekable_buffer::{Error, PeekableBuffer};

#[test]
fn consume_consumes_char_from_source() {
    let source = "abc";
    let mut buffer = PeekableBuffer::new(source);
    buffer.consume().unwrap();
    assert_eq!(buffer.read_char(), Ok('b'));
    assert_eq!(buffer.read_char(), Ok('c'));
}

#[test]
fn consume_consumes_char_from_peek_buffer() {
    let source = "abc";
    let mut buffer = PeekableBuffer::new(source);
    assert_eq!(buffer.peek_char(), Ok('a'));
    buffer.consume().unwrap();
    assert_eq!(buffer.read_char(), Ok('b'));
    assert_eq!(buffer.read_char(), Ok('c'));
}

#[test]
fn is_eof_returns_true_if_eof() {
    let source = "";
    let mut buffer = PeekableBuffer::new(source);
    assert!(buffer.is_eof());
}

#[test]
fn is_eof_returns_false_if_not_eof() {
    let source = "a";
    let mut buffer = PeekableBuffer::new(source);
    assert!(!buffer.is_eof());
}

#[test]
fn peek_char_does_not_consume() {
    let source = "abc";
    let mut buffer = PeekableBuffer::new(source);
    assert_eq!(buffer.peek_char(), Ok('a'));
    assert_eq!(buffer.read_char(), Ok('a'));
    assert_eq!(buffer.read_char(), Ok('b'));
    assert_eq!(buffer.read_char(), Ok('c'));
}

#[test]
fn peek_peek_char_looks_ahead() {
    let source = "abc";
    let mut buffer = PeekableBuffer::new(source);
    assert_eq!(buffer.peek_peek_char(), Ok('b'));
}

#[test]
fn peek_char_saves_result() {
    let source = "ab";
    let mut buffer = PeekableBuffer::new(source);
    assert_eq!(buffer.peek_char(), Ok('a'));
    assert_eq!(buffer.peek_char(), Ok('a'));
    assert_eq!(buffer.read_char(), Ok('a'));
    assert_eq!(buffer.read_char(), Ok('b'));
}

#[test]
fn read_char_consumes_char() {
    let source = "abc";
    let mut buffer = PeekableBuffer::new(source);
    assert_eq!(buffer.read_char(), Ok('a'));
    assert_eq!(buffer.read_char(), Ok('b'));
    assert_eq!(buffer.read_char(), Ok('c'));
}

#[test]
fn end_of_file_is_an_error() {
    let mut buffer = PeekableBuffer::new("a");
    assert_eq!(buffer.peek_peek_char(), Err(Error::EndOfFile));
    assert_eq!(buffer.read_char(), Ok('a'));
    assert!(buffer.is_eof());
    assert_eq!(buffer.peek_char(), Err(Error::EndOfFile));
    assert_eq!(buffer.read_char(), Err(Error::EndOfFile));
    assert_eq!(buffer.consume(), Err(Error::EndOfFile));
}

#[test]
fn looking_ahead_takes_nothing() {
    let mut buffer = PeekableBuffer::new("xyz");
    assert_eq!(buffer.peek_peek_char(), Ok('y'));
    assert_eq!(buffer.peek_char(), Ok('x'));
    assert_eq!(buffer.read_char(), Ok('x'));
    assert_eq!(buffer.peek_peek_char(), Ok('z'));
    assert_eq!(buffer.read_char(), Ok('y'));
    assert_eq!(buffer.peek_peek_char(), Err(Error::EndOfFile));
    assert_eq!(buffer.read_char(), Ok('z'));
}
