//! A text read character by character, with two characters of lookahead.

use vstd::prelude::*;

verus! {

/// Why a buffer gives no character.
#[derive(Clone, Copy, Debug, PartialEq, Eq, Structural)]
pub enum Error {
    /// Its text has ended.
    EndOfFile,
}

/// A text read one character at a time, with two characters of lookahead.
pub struct PeekableBuffer {
    source: Vec<char>,
    position: usize,
}

impl View for PeekableBuffer {
    type V = Seq<char>;

    /// The characters that are still to come.
    closed spec fn view(&self) -> Seq<char> {
        self.source@.skip(self.position as int)
    }
}

impl PeekableBuffer {
    /// The buffer does not stand past the end of its text.
    pub closed spec fn wf(&self) -> bool {
        self.position <= self.source@.len()
    }

    /// A buffer over a text.
    pub fn new(source: &str) -> (buffer: PeekableBuffer)
        ensures
            buffer.wf(),
            buffer@ == source@,
    {
        let mut chars: Vec<char> = Vec::new();
        for c in it: source.chars()
            invariant
                it.seq() == source@,
                chars@ == source@.take(it.index() as int),
        {
            chars.push(c);
        }
        assert(chars@ == source@);
        let buffer = PeekableBuffer { source: chars, position: 0 };
        assert(buffer@ =~= source@);
        buffer
    }

    /// Drops the next character.
    pub fn consume(&mut self) -> (result: Result<(), Error>)
        requires
            old(self).wf(),
        ensures
            final(self).wf(),
            match result {
                Ok(_) => old(self)@.len() > 0 && final(self)@ == old(self)@.drop_first(),
                Err(_) => old(self)@.len() == 0 && final(self)@ == old(self)@,
            },
    {
        match self.read_char() {
            Ok(_) => Ok(()),
            Err(error) => Err(error),
        }
    }

    /// Whether no character is left.
    pub fn is_eof(&mut self) -> (ended: bool)
        requires
            old(self).wf(),
        ensures
            final(self).wf(),
            final(self)@ == old(self)@,
            ended == (old(self)@.len() == 0),
    {
        self.position >= self.source.len()
    }

    /// The next character, which stays in the buffer.
    pub fn peek_char(&mut self) -> (result: Result<char, Error>)
        requires
            old(self).wf(),
        ensures
            final(self).wf(),
            final(self)@ == old(self)@,
            match result {
                Ok(c) => old(self)@.len() > 0 && c == old(self)@[0],
                Err(_) => old(self)@.len() == 0,
            },
    {
        if self.position < self.source.len() {
            Ok(self.source[self.position])
        } else {
            Err(Error::EndOfFile)
        }
    }

    /// The character behind the next one; both stay in the buffer.
    pub fn peek_peek_char(&mut self) -> (result: Result<char, Error>)
        requires
            old(self).wf(),
        ensures
            final(self).wf(),
            final(self)@ == old(self)@,
            match result {
                Ok(c) => old(self)@.len() > 1 && c == old(self)@[1],
                Err(_) => old(self)@.len() <= 1,
            },
    {
        if self.position < self.source.len() && self.position + 1 < self.source.len() {
            Ok(self.source[self.position + 1])
        } else {
            Err(Error::EndOfFile)
        }
    }

    /// Takes the next character out of the buffer.
    pub fn read_char(&mut self) -> (result: Result<char, Error>)
        requires
            old(self).wf(),
        ensures
            final(self).wf(),
            match result {
                Ok(c) => old(self)@.len() > 0 && c == old(self)@[0] && final(self)@ == old(
                    self,
                )@.drop_first(),
                Err(_) => old(self)@.len() == 0 && final(self)@ == old(self)@,
            },
    {
        if self.position < self.source.len() {
            let c = self.source[self.position];
            self.position = self.position + 1;
            assert(self@ =~= old(self)@.drop_first());
            Ok(c)
        } else {
            Err(Error::EndOfFile)
        }
    }
}

} // verus!
