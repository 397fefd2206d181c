use som::util::peekable_buffer::{Location, PeekableBuffer};

#[test]
fn peekable_buffer_location() {
    let source = "a\nbc";
    let mut buffer = PeekableBuffer::new(source);
    buffer.next();
    buffer.next();
    buffer.next();
    assert_eq!(buffer.location(), Location(2, 2))
}

#[test]
fn next_reads_values() {
    let source = "abc";
    let mut buffer = PeekableBuffer::new(source);
    assert_eq!(buffer.next(), Some('a'));
    assert_eq!(buffer.next(), Some('b'));
    assert_eq!(buffer.next(), Some('c'));
    assert_eq!(buffer.next(), None);
}

#[test]
fn next_reloads_buffer() {
    let source = "a\nbc";
    let mut buffer = PeekableBuffer::new(source);
    assert_eq!(buffer.next(), Some('a'));
    assert_eq!(buffer.next(), Some('\n'));
    assert_eq!(buffer.next(), Some('b'));
    assert_eq!(buffer.next(), Some('c'));
    assert_eq!(buffer.next(), None);
}

#[test]
fn next_consumes_value() {
    let source = "abc";
    let mut buffer = PeekableBuffer::new(source);
    buffer.next();
    assert_eq!(buffer.peek(), Some('b'));
}

#[test]
fn next_returns_peeked() {
    let source = "abc";
    let mut buffer = PeekableBuffer::new(source);
    buffer.peek();
    assert_eq!(buffer.next(), Some('a'));
}

#[test]
fn next_consumes_peeked() {
    let source = "abc";
    let mut buffer = PeekableBuffer::new(source);
    buffer.peek();
    assert_eq!(buffer.next(), Some('a'));
    assert_eq!(buffer.next(), Some('b'));
}

#[test]
fn peek_returns_first_value() {
    let source = "abc";
    let mut buffer = PeekableBuffer::new(source);
    assert_eq!(buffer.peek(), Some('a'));
}

#[test]
fn peek_returns_existing_peeked_value() {
    let source = "abc";
    let mut buffer = PeekableBuffer::new(source);
    buffer.peek();
    assert_eq!(buffer.peek(), Some('a'));
}

#[test]
fn peek_returns_second_peeked_value() {
    let source = "abc";
    let mut buffer = PeekableBuffer::new(source);
    buffer.next();
    buffer.peek();
    assert_eq!(buffer.peek(), Some('b'));
}

#[test]
fn consume() {
    let source = "abc";
    let mut buffer = PeekableBuffer::new(source);
    buffer.peek();
    buffer.consume();
    assert_eq!(buffer.peek(), Some('b'));
}

#[test]
fn location_of_the_first_character_is_one_one() {
    let mut buffer = PeekableBuffer::new("ab");
    assert_eq!(buffer.location(), Location(1, 1));
    buffer.peek();
    assert_eq!(buffer.location(), Location(1, 1));
    buffer.consume();
    assert_eq!(buffer.location(), Location(1, 2));
}

#[test]
fn location_after_blank_lines() {
    let mut buffer = PeekableBuffer::new(" \n  World");
    for _ in 0..4 {
        buffer.consume();
    }
    assert_eq!(buffer.peek(), Some('W'));
    assert_eq!(buffer.location(), Location(2, 3));
}

#[test]
fn line_break_belongs_to_the_line_that_it_ends() {
    let mut buffer = PeekableBuffer::new("ab\n\ncd");
    buffer.consume();
    buffer.consume();
    assert_eq!(buffer.peek(), Some('\n'));
    assert_eq!(buffer.location(), Location(1, 3));
    buffer.consume();
    assert_eq!(buffer.location(), Location(2, 1));
    buffer.consume();
    assert_eq!(buffer.location(), Location(3, 1));
}

#[test]
fn location_past_the_end() {
    let mut buffer = PeekableBuffer::new("ab");
    buffer.consume();
    buffer.consume();
    assert_eq!(buffer.peek(), None);
    assert_eq!(buffer.location(), Location(1, 3));
    buffer.consume();
    assert_eq!(buffer.next(), None);
    assert_eq!(buffer.location(), Location(1, 3));
    let mut empty = PeekableBuffer::new("");
    assert_eq!(empty.peek(), None);
    assert_eq!(empty.location(), Location(1, 1));
}

#[test]
fn characters_outside_ascii_count_as_one_column() {
    let mut buffer = PeekableBuffer::new("é€x");
    assert_eq!(buffer.next(), Some('é'));
    assert_eq!(buffer.next(), Some('€'));
    assert_eq!(buffer.location(), Location(1, 3));
    assert_eq!(buffer.next(), Some('x'));
}

#[test]
fn chunks_are_read_as_one_text() {
    let chunks = vec!["ab".to_string(), "".to_string(), "\nc".to_string()];
    let mut buffer = PeekableBuffer::from_chunks(&chunks);
    assert_eq!(buffer.next(), Some('a'));
    assert_eq!(buffer.next(), Some('b'));
    assert_eq!(buffer.next(), Some('\n'));
    assert_eq!(buffer.location(), Location(2, 1));
    assert_eq!(buffer.next(), Some('c'));
    assert_eq!(buffer.next(), None);
    let mut none = PeekableBuffer::from_chunks(&Vec::new());
    assert_eq!(none.next(), None);
}
