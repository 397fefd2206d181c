//! A text read character by character, with the line and the column of each
//! character.

use vstd::prelude::*;

verus! {

/// A place in a source text: line and column, both counted from 1.
#[derive(Copy, Clone, Debug, PartialEq, Eq, Structural)]
pub struct Location(pub usize, pub usize);

/// Number of line breaks among the first `position` characters.
pub open spec fn line_breaks_before(chars: Seq<char>, position: int) -> int
    decreases position,
{
    if position <= 0 {
        0
    } else {
        line_breaks_before(chars, position - 1) + if chars[position - 1] == '\n' {
            1int
        } else {
            0int
        }
    }
}

/// Index of the first character of the line that holds `position`.
pub open spec fn line_start(chars: Seq<char>, position: int) -> int
    decreases position,
{
    if position <= 0 {
        0
    } else if chars[position - 1] == '\n' {
        position
    } else {
        line_start(chars, position - 1)
    }
}

/// The machine integer nearest to `n`.
pub open spec fn clamp(n: int) -> usize {
    if n < 0 {
        0
    } else if n > usize::MAX {
        usize::MAX
    } else {
        n as usize
    }
}

/// Line and column of the character at `position`. A line break belongs to the
/// line that it ends; the position just past the last character has a location too.
pub open spec fn location_at(chars: Seq<char>, position: int) -> Location {
    Location(
        clamp(1 + line_breaks_before(chars, position)),
        clamp(1 + position - line_start(chars, position)),
    )
}

/// What a list of pieces of text stands for.
pub open spec fn chunks_view(chunks: Seq<String>) -> Seq<Seq<char>> {
    chunks.map_values(|chunk: String| chunk@)
}

/// The characters of all chunks, in order.
pub open spec fn concat(chunks: Seq<Seq<char>>) -> Seq<char>
    decreases chunks.len(),
{
    if chunks.len() == 0 {
        Seq::empty()
    } else {
        concat(chunks.drop_last()) + chunks.last()
    }
}

/// Before a position there are no more line breaks than characters, and the
/// line that holds it starts at or before it.
pub proof fn lemma_line_bounds(chars: Seq<char>, position: int)
    requires
        0 <= position,
    ensures
        0 <= line_breaks_before(chars, position) <= position,
        0 <= line_start(chars, position) <= position,
    decreases position,
{
    if position > 0 {
        lemma_line_bounds(chars, position - 1);
    }
}

/// What a buffer stands for: the whole text and how much of it has been read.
pub ghost struct BufferView {
    pub chars: Seq<char>,
    pub position: nat,
}

impl BufferView {
    /// The next character, if one is left.
    pub open spec fn peek(self) -> Option<char> {
        if self.position < self.chars.len() {
            Some(self.chars[self.position as int])
        } else {
            None
        }
    }

    /// The buffer after one character was read; at the end nothing changes.
    pub open spec fn advance(self) -> BufferView {
        if self.position < self.chars.len() {
            BufferView { chars: self.chars, position: self.position + 1 }
        } else {
            self
        }
    }

    /// Where the next character stands.
    pub open spec fn location(self) -> Location {
        location_at(self.chars, self.position as int)
    }
}

/// A text read one character at a time, with one character of lookahead and
/// the location of the next character.
pub struct PeekableBuffer {
    source: Vec<char>,
    position: usize,
    line: usize,
    column: usize,
}

impl View for PeekableBuffer {
    type V = BufferView;

    closed spec fn view(&self) -> BufferView {
        BufferView { chars: self.source@, position: self.position as nat }
    }
}

impl PeekableBuffer {
    /// The counters agree with the text read so far.
    pub closed spec fn wf(&self) -> bool {
        &&& self.position <= self.source@.len()
        &&& self.line == line_breaks_before(self.source@, self.position as int)
        &&& self.column == self.position - line_start(self.source@, self.position as int)
    }

    /// A buffer never stands past the end of its text.
    pub proof fn lemma_position_in_text(&self)
        requires
            self.wf(),
        ensures
            self@.position <= self@.chars.len(),
    {
    }

    /// A buffer over a text.
    pub fn new(source: &str) -> (buffer: PeekableBuffer)
        ensures
            buffer.wf(),
            buffer@ == (BufferView { chars: source@, position: 0 }),
    {
        let mut chars: Vec<char> = Vec::new();
        for c in it: source.chars()
            invariant
                it.seq() == source@,
                chars@ == source@.take(it.index() as int),
        {
            chars.push(c);
        }
        assert(chars@ == source@);
        PeekableBuffer { source: chars, position: 0, line: 0, column: 0 }
    }

    /// A buffer over a text that was read in pieces.
    pub fn from_chunks(chunks: &Vec<String>) -> (buffer: PeekableBuffer)
        ensures
            buffer.wf(),
            buffer@ == (BufferView { chars: concat(chunks_view(chunks@)), position: 0 }),
    {
        let ghost parts = chunks_view(chunks@);
        let mut chars: Vec<char> = Vec::new();
        let mut k: usize = 0;
        while k < chunks.len()
            invariant
                k <= chunks.len(),
                parts == chunks_view(chunks@),
                chars@ == concat(parts.take(k as int)),
            decreases chunks.len() - k,
        {
            let chunk: &str = chunks[k].as_str();
            let ghost before = chars@;
            for c in it: chunk.chars()
                invariant
                    it.seq() == chunk@,
                    chars@ == before + chunk@.take(it.index() as int),
            {
                chars.push(c);
            }
            proof {
                assert(chunk@.take(chunk@.len() as int) == chunk@);
                assert(parts.take(k + 1).drop_last() == parts.take(k as int));
                assert(parts.take(k + 1).last() == chunk@);
            }
            k = k + 1;
        }
        assert(parts.take(k as int) == parts);
        PeekableBuffer { source: chars, position: 0, line: 0, column: 0 }
    }

    /// The next character, which stays in the buffer.
    pub fn peek(&mut self) -> (next: Option<char>)
        requires
            old(self).wf(),
        ensures
            final(self).wf(),
            final(self)@ == old(self)@,
            next == old(self)@.peek(),
    {
        if self.position < self.source.len() {
            Some(self.source[self.position])
        } else {
            None
        }
    }

    /// Drops the next character.
    pub fn consume(&mut self)
        requires
            old(self).wf(),
        ensures
            final(self).wf(),
            final(self)@ == old(self)@.advance(),
    {
        if self.position < self.source.len() {
            proof {
                lemma_line_bounds(self.source@, self.position as int);
            }
            if self.source[self.position] == '\n' {
                self.line = self.line + 1;
                self.column = 0;
            } else {
                self.column = self.column + 1;
            }
            self.position = self.position + 1;
        }
    }

    /// Takes the next character out of the buffer.
    pub fn next(&mut self) -> (next: Option<char>)
        requires
            old(self).wf(),
        ensures
            final(self).wf(),
            final(self)@ == old(self)@.advance(),
            next == old(self)@.peek(),
    {
        let next = self.peek();
        self.consume();
        next
    }

    /// Where the next character stands, or the place just past the end.
    pub fn location(&self) -> (location: Location)
        requires
            self.wf(),
        ensures
            location == self@.location(),
    {
        proof {
            lemma_line_bounds(self.source@, self.position as int);
        }
        let line: usize = if self.line < usize::MAX {
            self.line + 1
        } else {
            usize::MAX
        };
        let column: usize = if self.column < usize::MAX {
            self.column + 1
        } else {
            usize::MAX
        };
        Location(line, column)
    }
}

} // verus!
