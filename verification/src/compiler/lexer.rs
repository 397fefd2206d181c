//! The lexer, which reads the tokens of a text one by one.

use crate::compiler::lexical::{
    bare, lemma_run_end, lemma_scan_advances, lemma_skip_trivia,
    lemma_skip_trivia_after_whitespace, operator_symbol, punctuation, quoted_end, run_end, scan,
    scan_colon, scan_minus, scan_number, scan_operator, scan_string, scan_word, skip_trivia,
    token_stream, tokens_from, CharClass, ItemView, Scan, TokenStream,
};
use crate::compiler::token::{Symbol, Token};
use crate::util::peekable_buffer::{chunks_view, concat, location_at, Location, PeekableBuffer};
use crate::util::text::push_char;
use std::collections::VecDeque;
use vstd::prelude::*;
use vstd::std_specs::cmp::PartialEqSpecImpl;
use vstd::string::StringExecFns;

verus! {

/// Whether operators are made of this character.
pub fn is_operator(c: char) -> (yes: bool)
    ensures
        yes == CharClass::Operator.has(c),
{
    c == '~' || c == '&' || c == '|' || c == '*' || c == '/' || c == '\\' || c == '+' || c == '='
        || c == '>' || c == '<' || c == ',' || c == '@' || c == '%'
}

/// Whether identifiers are made of this character: a letter, a digit or an
/// underscore.
pub fn is_identifier(c: char) -> (yes: bool)
    ensures
        yes == CharClass::Identifier.has(c),
{
    is_letter(c) || is_digit(c) || c == '_'
}

/// Whether this is one of the letters `a` to `z` and `A` to `Z`.
pub fn is_letter(c: char) -> (yes: bool)
    ensures
        yes == CharClass::Letter.has(c),
{
    ('a' <= c && c <= 'z') || ('A' <= c && c <= 'Z')
}

/// Whether this is one of the digits `0` to `9`.
pub fn is_digit(c: char) -> (yes: bool)
    ensures
        yes == CharClass::Digit.has(c),
{
    '0' <= c && c <= '9'
}

/// Whether this character is white space.
pub fn is_whitespace(c: char) -> (yes: bool)
    ensures
        yes == CharClass::Whitespace.has(c),
{
    c == ' ' || ('\t' <= c && c <= '\r') || c == '\u{85}' || c == '\u{A0}' || c == '\u{1680}' || (
    '\u{2000}' <= c && c <= '\u{200A}') || c == '\u{2028}' || c == '\u{2029}' || c == '\u{202F}'
        || c == '\u{205F}' || c == '\u{3000}'
}

fn in_class(class: CharClass, c: char) -> (yes: bool)
    ensures
        yes == class.has(c),
{
    match class {
        CharClass::Whitespace => is_whitespace(c),
        CharClass::Letter => is_letter(c),
        CharClass::Digit => is_digit(c),
        CharClass::Identifier => is_identifier(c),
        CharClass::KeywordPart => is_letter(c) || is_digit(c) || c == ':',
        CharClass::Operator => is_operator(c),
        CharClass::Minus => c == '-',
        CharClass::StringBody => c != '\'',
        CharClass::CommentBody => c != '"',
    }
}

fn punctuation_symbol(c: char) -> (symbol: Option<Symbol>)
    ensures
        symbol == punctuation(c),
{
    if c == '[' {
        Some(Symbol::NewBlock)
    } else if c == ']' {
        Some(Symbol::EndBlock)
    } else if c == '(' {
        Some(Symbol::NewTerm)
    } else if c == ')' {
        Some(Symbol::EndTerm)
    } else if c == '#' {
        Some(Symbol::Pound)
    } else if c == '^' {
        Some(Symbol::Exit)
    } else if c == '.' {
        Some(Symbol::Period)
    } else {
        None
    }
}

fn single_operator(c: char) -> (symbol: Symbol)
    ensures
        symbol == operator_symbol(c),
{
    if c == '~' {
        Symbol::Not
    } else if c == '&' {
        Symbol::And
    } else if c == '|' {
        Symbol::Or
    } else if c == '*' {
        Symbol::Star
    } else if c == '/' {
        Symbol::Divide
    } else if c == '\\' {
        Symbol::Modulus
    } else if c == '+' {
        Symbol::Plus
    } else if c == '=' {
        Symbol::Equal
    } else if c == '>' {
        Symbol::More
    } else if c == '<' {
        Symbol::Less
    } else if c == ',' {
        Symbol::Comma
    } else if c == '@' {
        Symbol::At
    } else {
        Symbol::Percent
    }
}

/// Why the lexer gives no token.
#[derive(Clone, Copy, Debug, PartialEq, Eq, Structural)]
pub enum Error {
    /// The character at this place starts no token.
    Unexpected { character: char, location: Location },
    /// The input has ended.
    End,
}

/// A token and the place of its first character.
#[derive(Debug)]
pub struct Item(pub Token, pub Location);

impl View for Item {
    type V = ItemView;

    open spec fn view(&self) -> ItemView {
        ItemView { token: self.0@, location: self.1 }
    }
}

impl Clone for Item {
    fn clone(&self) -> (copy: Item)
        ensures
            copy@ == self@,
    {
        Item(self.0.clone(), self.1)
    }
}

impl PartialEq for Item {
    fn eq(&self, other: &Item) -> (equal: bool) {
        self.0 == other.0 && self.1 == other.1
    }
}

impl PartialEqSpecImpl for Item {
    open spec fn obeys_eq_spec() -> bool {
        true
    }

    open spec fn eq_spec(&self, other: &Item) -> bool {
        self@ == other@
    }
}

/// An item equals a token when it holds that token, wherever it stands.
impl PartialEq<Token> for Item {
    fn eq(&self, other: &Token) -> (equal: bool) {
        self.0 == *other
    }
}

impl PartialEqSpecImpl<Token> for Item {
    open spec fn obeys_eq_spec() -> bool {
        true
    }

    open spec fn eq_spec(&self, other: &Token) -> bool {
        self.0@ == other@
    }
}

/// What a queue of items stands for.
pub open spec fn items_view(items: Seq<Item>) -> Seq<ItemView> {
    items.map_values(|item: Item| item@)
}

/// Reads a text token by token.
pub struct Lexer {
    buffer: PeekableBuffer,
    queue: VecDeque<Item>,
}

impl View for Lexer {
    type V = TokenStream;

    /// The tokens that are still to come, and how they end.
    closed spec fn view(&self) -> TokenStream {
        let later = tokens_from(self.buffer@.chars, self.buffer@.position as int);
        TokenStream { items: items_view(self.queue@) + later.items, end: later.end }
    }
}

impl Lexer {
    /// The buffer is well formed, and no more than two tokens wait in the
    /// queue.
    pub closed spec fn wf(&self) -> bool {
        self.buffer.wf() && self.queue@.len() <= 2
    }

    /// The number of tokens that were read ahead and wait in the queue.
    pub closed spec fn pending(&self) -> nat {
        self.queue@.len()
    }

    /// The queue never holds more than two tokens.
    pub proof fn lemma_pending(&self)
        requires
            self.wf(),
        ensures
            self.pending() <= 2,
    {
    }

    /// The buffer is well formed.
    closed spec fn steady(&self) -> bool {
        self.buffer.wf()
    }

    /// The text, all of it.
    closed spec fn chars(&self) -> Seq<char> {
        self.buffer@.chars
    }

    /// How much of the text has been read.
    closed spec fn position(&self) -> int {
        self.buffer@.position as int
    }

    /// The state after a run of `class` was read from the state `before`.
    closed spec fn ran(&self, before: &Lexer, class: CharClass) -> bool {
        &&& self.steady()
        &&& self.chars() == before.chars()
        &&& self.queue@ == before.queue@
        &&& self.position() == run_end(before.chars(), before.position(), class)
        &&& before.position() <= self.position() <= self.chars().len()
    }

    /// The state after one step read `token` and what `scanned` says from the
    /// state `before`: the token is the first that was read, the others wait in the
    /// queue.
    closed spec fn stepped(&self, before: &Lexer, token: Token, scanned: Scan) -> bool {
        &&& self.steady()
        &&& self.chars() == before.chars()
        &&& scanned matches Scan::Tokens(items, next)
        &&& self.position() == next
        &&& items.len() >= 1
        &&& items[0] == (ItemView {
            token: token@,
            location: location_at(before.chars(), before.position()),
        })
        &&& items_view(self.queue@) == items_view(before.queue@) + items.drop_first()
    }

    /// A lexer over a text.
    pub fn new(source: &str) -> (lexer: Lexer)
        ensures
            lexer.wf(),
            lexer.pending() == 0,
            lexer@ == token_stream(source@),
    {
        let lexer = Lexer { buffer: PeekableBuffer::new(source), queue: VecDeque::new() };
        assert(lexer@.items == token_stream(source@).items);
        lexer
    }

    /// A lexer over a text that was read in pieces.
    pub fn from_chunks(chunks: &Vec<String>) -> (lexer: Lexer)
        ensures
            lexer.wf(),
            lexer.pending() == 0,
            lexer@ == token_stream(concat(chunks_view(chunks@))),
    {
        let lexer = Lexer { buffer: PeekableBuffer::from_chunks(chunks), queue: VecDeque::new() };
        assert(lexer@.items == token_stream(concat(chunks_view(chunks@))).items);
        lexer
    }

    /// The next token with its place, or why there is none. After the last
    /// token every call gives the same error.
    pub fn read_token(&mut self) -> (result: Result<Item, Error>)
        requires
            old(self).wf(),
        ensures
            final(self).wf(),
            match result {
                Ok(item) => {
                    &&& old(self)@.items.len() > 0
                    &&& item@ == old(self)@.items[0]
                    &&& final(self)@ == old(self)@.rest()
                },
                Err(error) => {
                    &&& old(self)@.items.len() == 0
                    &&& error == old(self)@.end
                    &&& final(self)@ == old(self)@
                },
            },
    {
        if self.queue.len() > 0 {
            let item = self.queue.pop_front().unwrap();
            assert(final(self)@.items == old(self)@.rest().items);
            return Ok(item);
        }
        let ghost chars = self.chars();
        let ghost from = self.position();
        proof {
            self.buffer.lemma_position_in_text();
            lemma_skip_trivia(chars, from);
        }
        self.skip_trivia();
        let ghost start = self.position();
        assert(skip_trivia(chars, start) == start);
        let location = self.buffer.location();
        let c = match self.buffer.peek() {
            Some(c) => c,
            None => {
                assert(self@.items == old(self)@.items);
                return Err(Error::End);
            },
        };
        proof {
            lemma_scan_advances(chars, start);
        }
        let ghost before = *self;
        let token = if let Some(symbol) = punctuation_symbol(c) {
            self.read_symbol(symbol)
        } else if c == '-' {
            self.read_minus()
        } else if c == ':' {
            self.read_colon()
        } else if is_letter(c) {
            self.read_identifier()
        } else if is_digit(c) {
            self.read_number()
        } else if c == '\'' {
            self.read_string()
        } else if is_operator(c) {
            self.read_operator()
        } else {
            assert(self@.items == old(self)@.items);
            return Err(Error::Unexpected { character: c, location });
        };
        proof {
            assert(self.stepped(&before, token, scan(chars, start)));
            let later = tokens_from(chars, self.position());
            let items = scan(chars, start)->Tokens_0;
            assert(old(self)@.items == items + later.items);
            assert(self@.items == items.drop_first() + later.items);
            assert(self@.items == old(self)@.rest().items);
        }
        Ok(Item(token, location))
    }

    /// The next token, if there is one.
    pub fn next(&mut self) -> (next: Option<Item>)
        requires
            old(self).wf(),
        ensures
            final(self).wf(),
            match next {
                Some(item) => {
                    &&& old(self)@.items.len() > 0
                    &&& item@ == old(self)@.items[0]
                    &&& final(self)@ == old(self)@.rest()
                },
                None => {
                    &&& old(self)@.items.len() == 0
                    &&& final(self)@ == old(self)@
                },
            },
    {
        match self.read_token() {
            Ok(item) => Some(item),
            Err(_) => None,
        }
    }

    /// Reads on to the end of the run of `class` that starts here.
    fn skip_run(&mut self, class: CharClass)
        requires
            old(self).steady(),
        ensures
            final(self).ran(old(self), class),
    {
        proof {
            self.buffer.lemma_position_in_text();
        }
        loop
            invariant
                self.steady(),
                self.chars() == old(self).chars(),
                self.queue@ == old(self).queue@,
                old(self).position() <= self.position() <= self.chars().len(),
                run_end(self.chars(), self.position(), class) == run_end(
                    self.chars(),
                    old(self).position(),
                    class,
                ),
            ensures
                self.ran(old(self), class),
            decreases self.chars().len() - self.position(),
        {
            match self.buffer.peek() {
                Some(c) => {
                    if in_class(class, c) {
                        self.buffer.consume();
                    } else {
                        break ;
                    }
                },
                None => {
                    break ;
                },
            }
        }
    }

    /// Reads on to the end of the run of `class` that starts here, and adds
    /// its characters to `text`.
    fn take_run(&mut self, class: CharClass, text: &mut String)
        requires
            old(self).steady(),
        ensures
            final(self).ran(old(self), class),
            final(text)@ == old(text)@ + old(self).chars().subrange(
                old(self).position(),
                final(self).position(),
            ),
    {
        proof {
            self.buffer.lemma_position_in_text();
        }
        loop
            invariant
                self.steady(),
                self.chars() == old(self).chars(),
                self.queue@ == old(self).queue@,
                old(self).position() <= self.position() <= self.chars().len(),
                run_end(self.chars(), self.position(), class) == run_end(
                    self.chars(),
                    old(self).position(),
                    class,
                ),
                text@ == old(text)@ + self.chars().subrange(
                    old(self).position(),
                    self.position(),
                ),
            ensures
                self.ran(old(self), class),
                text@ == old(text)@ + self.chars().subrange(
                    old(self).position(),
                    self.position(),
                ),
            decreases self.chars().len() - self.position(),
        {
            match self.buffer.peek() {
                Some(c) => {
                    if in_class(class, c) {
                        push_char(text, c);
                        self.buffer.consume();
                        assert(text@ == old(text)@ + self.chars().subrange(
                            old(self).position(),
                            self.position(),
                        ));
                    } else {
                        break ;
                    }
                },
                None => {
                    break ;
                },
            }
        }
    }

    fn skip_whitespace(&mut self)
        requires
            old(self).steady(),
        ensures
            final(self).ran(old(self), CharClass::Whitespace),
    {
        self.skip_run(CharClass::Whitespace)
    }

    /// Passes over the comment that starts here, if one does.
    fn skip_comments(&mut self) -> (skipped: bool)
        requires
            old(self).steady(),
        ensures
            final(self).steady(),
            final(self).chars() == old(self).chars(),
            final(self).queue@ == old(self).queue@,
            skipped == (old(self).buffer@.peek() == Some('"')),
            final(self).position() == if skipped {
                quoted_end(old(self).chars(), old(self).position() + 1, CharClass::CommentBody)
            } else {
                old(self).position()
            },
    {
        if self.buffer.peek() != Some('"') {
            return false;
        }
        self.buffer.consume();
        self.skip_run(CharClass::CommentBody);
        self.buffer.consume();
        true
    }

    /// Passes over white space and comments.
    fn skip_trivia(&mut self)
        requires
            old(self).steady(),
        ensures
            final(self).steady(),
            final(self).chars() == old(self).chars(),
            final(self).queue@ == old(self).queue@,
            final(self).position() == skip_trivia(old(self).chars(), old(self).position()),
    {
        proof {
            self.buffer.lemma_position_in_text();
        }
        loop
            invariant
                self.steady(),
                self.chars() == old(self).chars(),
                self.queue@ == old(self).queue@,
                0 <= self.position() <= self.chars().len(),
                skip_trivia(self.chars(), self.position()) == skip_trivia(
                    old(self).chars(),
                    old(self).position(),
                ),
            ensures
                self.steady(),
                self.chars() == old(self).chars(),
                self.queue@ == old(self).queue@,
                self.position() == skip_trivia(old(self).chars(), old(self).position()),
            decreases self.chars().len() - self.position(),
        {
            proof {
                lemma_skip_trivia_after_whitespace(self.chars(), self.position());
                lemma_run_end(self.chars(), self.position(), CharClass::Whitespace);
            }
            self.skip_whitespace();
            proof {
                if self.position() < self.chars().len() {
                    lemma_run_end(self.chars(), self.position() + 1, CharClass::CommentBody);
                }
            }
            if !self.skip_comments() {
                break ;
            }
        }
    }

    fn read_symbol(&mut self, symbol: Symbol) -> (token: Token)
        requires
            old(self).steady(),
            old(self).buffer@.peek() is Some,
        ensures
            final(self).stepped(
                old(self),
                token,
                Scan::Tokens(
                    seq![bare(symbol, old(self).chars(), old(self).position())],
                    old(self).position() + 1,
                ),
            ),
    {
        self.buffer.consume();
        let token = Token(symbol, None);
        assert(items_view(self.queue@) == items_view(old(self).queue@) + Seq::<ItemView>::empty());
        token
    }

    fn read_operator(&mut self) -> (token: Token)
        requires
            old(self).steady(),
            old(self).buffer@.peek() matches Some(c) && CharClass::Operator.has(c),
        ensures
            final(self).stepped(
                old(self),
                token,
                scan_operator(old(self).chars(), old(self).position()),
            ),
    {
        let ghost chars = self.chars();
        let ghost start = self.position();
        let first = self.buffer.next().unwrap();
        proof {
            lemma_run_end(chars, start + 1, CharClass::Operator);
        }
        let several = match self.buffer.peek() {
            Some(c) => is_operator(c),
            None => false,
        };
        let token = if several {
            let mut sequence = String::new();
            push_char(&mut sequence, first);
            self.take_run(CharClass::Operator, &mut sequence);
            assert(sequence@ == chars.subrange(start, self.position()));
            Token(Symbol::OperatorSequence, Some(sequence))
        } else {
            Token(single_operator(first), None)
        };
        assert(items_view(self.queue@) == items_view(old(self).queue@) + Seq::<ItemView>::empty());
        token
    }

    fn read_colon(&mut self) -> (token: Token)
        requires
            old(self).steady(),
            old(self).buffer@.peek() == Some(':'),
        ensures
            final(self).stepped(
                old(self),
                token,
                scan_colon(old(self).chars(), old(self).position()),
            ),
    {
        self.buffer.consume();
        let token = if self.buffer.peek() == Some('=') {
            self.buffer.consume();
            Token(Symbol::Assign, None)
        } else {
            Token(Symbol::Colon, None)
        };
        assert(items_view(self.queue@) == items_view(old(self).queue@) + Seq::<ItemView>::empty());
        token
    }

    fn read_identifier(&mut self) -> (token: Token)
        requires
            old(self).steady(),
            old(self).buffer@.peek() matches Some(c) && CharClass::Letter.has(c),
        ensures
            final(self).stepped(
                old(self),
                token,
                scan_word(old(self).chars(), old(self).position()),
            ),
    {
        let ghost chars = self.chars();
        let ghost start = self.position();
        let mut text = String::new();
        self.take_run(CharClass::Identifier, &mut text);
        let ghost stem = self.position();
        assert(text@ == chars.subrange(start, stem));
        let token = if self.buffer.peek() == Some(':') {
            self.buffer.consume();
            push_char(&mut text, ':');
            assert(text@ == chars.subrange(start, stem + 1));
            let sequence = match self.buffer.peek() {
                Some(c) => is_letter(c),
                None => false,
            };
            if sequence {
                self.take_run(CharClass::KeywordPart, &mut text);
                assert(text@ == chars.subrange(start, self.position()));
                Token(Symbol::KeywordSequence, Some(text))
            } else {
                Token(Symbol::Keyword, Some(text))
            }
        } else if text == String::from_str("primitive") {
            Token(Symbol::Primitive, None)
        } else {
            Token(Symbol::Identifier, Some(text))
        };
        assert(items_view(self.queue@) == items_view(old(self).queue@) + Seq::<ItemView>::empty());
        token
    }

    fn read_string(&mut self) -> (token: Token)
        requires
            old(self).steady(),
            old(self).buffer@.peek() == Some('\''),
        ensures
            final(self).stepped(
                old(self),
                token,
                scan_string(old(self).chars(), old(self).position()),
            ),
    {
        let ghost chars = self.chars();
        let ghost start = self.position();
        let mut text = String::new();
        self.buffer.consume();
        self.take_run(CharClass::StringBody, &mut text);
        assert(text@ == chars.subrange(start + 1, self.position()));
        self.buffer.consume();
        assert(items_view(self.queue@) == items_view(old(self).queue@) + Seq::<ItemView>::empty());
        Token(Symbol::String, Some(text))
    }

    fn read_number(&mut self) -> (token: Token)
        requires
            old(self).steady(),
            old(self).buffer@.peek() matches Some(c) && CharClass::Digit.has(c),
        ensures
            final(self).stepped(
                old(self),
                token,
                scan_number(old(self).chars(), old(self).position()),
            ),
    {
        let ghost chars = self.chars();
        let ghost start = self.position();
        let mut text = String::new();
        self.take_run(CharClass::Digit, &mut text);
        let ghost whole = self.position();
        assert(text@ == chars.subrange(start, whole));
        if self.buffer.peek() == Some('.') {
            let location = self.buffer.location();
            self.buffer.consume();
            let fraction = match self.buffer.peek() {
                Some(c) => is_digit(c),
                None => false,
            };
            if fraction {
                push_char(&mut text, '.');
                self.take_run(CharClass::Digit, &mut text);
                assert(text@ == chars.subrange(start, self.position()));
                assert(items_view(self.queue@) == items_view(old(self).queue@) + Seq::<
                    ItemView,
                >::empty());
                Token(Symbol::Double, Some(text))
            } else {
                self.queue.push_back(Item(Token(Symbol::Period, None), location));
                let token = Token(Symbol::Integer, Some(text));
                proof {
                    let items = scan_number(chars, start)->Tokens_0;
                    assert(items_view(self.queue@) == items_view(old(self).queue@)
                        + items.drop_first());
                }
                token
            }
        } else {
            assert(items_view(self.queue@) == items_view(old(self).queue@) + Seq::<
                ItemView,
            >::empty());
            Token(Symbol::Integer, Some(text))
        }
    }

    fn read_minus(&mut self) -> (token: Token)
        requires
            old(self).steady(),
            old(self).buffer@.peek() == Some('-'),
        ensures
            final(self).stepped(
                old(self),
                token,
                scan_minus(old(self).chars(), old(self).position()),
            ),
    {
        let ghost chars = self.chars();
        let ghost start = self.position();
        proof {
            reveal_with_fuel(run_end, 5);
        }
        self.buffer.consume();
        let second = self.buffer.location();
        if self.buffer.peek() != Some('-') {
            proof {
                let items = scan_minus(chars, start)->Tokens_0;
                assert(items_view(self.queue@) == items_view(old(self).queue@)
                    + items.drop_first());
            }
            return Token(Symbol::Minus, None);
        }
        self.buffer.consume();
        let third = self.buffer.location();
        if self.buffer.peek() != Some('-') {
            self.queue.push_back(Item(Token(Symbol::Minus, None), second));
            proof {
                let items = scan_minus(chars, start)->Tokens_0;
                assert(items_view(self.queue@) == items_view(old(self).queue@)
                    + items.drop_first());
            }
            return Token(Symbol::Minus, None);
        }
        self.buffer.consume();
        if self.buffer.peek() != Some('-') {
            self.queue.push_back(Item(Token(Symbol::Minus, None), second));
            self.queue.push_back(Item(Token(Symbol::Minus, None), third));
            proof {
                let items = scan_minus(chars, start)->Tokens_0;
                assert(items_view(self.queue@) == items_view(old(self).queue@)
                    + items.drop_first());
            }
            return Token(Symbol::Minus, None);
        }
        proof {
            lemma_run_end(chars, start + 3, CharClass::Minus);
        }
        self.skip_run(CharClass::Minus);
        assert(items_view(self.queue@) == items_view(old(self).queue@) + Seq::<ItemView>::empty());
        Token(Symbol::Separator, None)
    }
}

} // verus!
