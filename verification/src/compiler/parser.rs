//! The parser, which reads a class from the tokens of a text.

use crate::compiler::ast::{
    expressions_view, lemma_block_view, lemma_keyword_message_view, strings_view, Class, ClassView,
    Decimal, Expression, ExpressionView, Method, MethodView, Methods,
};
use crate::compiler::grammar;
use crate::compiler::grammar::{extended, joined, shifted, ErrorView, Input, Parsed};
use crate::compiler::lexer::{items_view, Error as LexerError, Item, Lexer};
use crate::compiler::lexical::{token_stream, ItemView, TokenStream};
use crate::compiler::token::{Symbol, Token, TokenView};
use crate::util::peekable_buffer::{chunks_view, concat, Location};
use crate::util::text::push_char;
use std::collections::VecDeque;
use vstd::prelude::*;
use vstd::slice::slice_to_vec;
use vstd::string::StringExecFns;

verus! {

/// Whether this is the symbol of an operator of one character.
pub fn is_binary_operator(symbol: &Symbol) -> (yes: bool)
    ensures
        yes == grammar::is_binary_operator(*symbol),
{
    match symbol {
        Symbol::And
        | Symbol::At
        | Symbol::Comma
        | Symbol::Divide
        | Symbol::Equal
        | Symbol::Less
        | Symbol::Minus
        | Symbol::Modulus
        | Symbol::More
        | Symbol::Not
        | Symbol::Or
        | Symbol::Percent
        | Symbol::Plus
        | Symbol::Star => true,
        _ => false,
    }
}

/// The selector that an operator of one character is.
pub fn binary_symbol_to_string(symbol: &Symbol) -> (text: String)
    requires
        grammar::is_binary_operator(*symbol),
    ensures
        text@ == grammar::binary_operator_text(*symbol),
{
    let text = match symbol {
        Symbol::And => "&",
        Symbol::At => "@",
        Symbol::Comma => ",",
        Symbol::Divide => "/",
        Symbol::Equal => "=",
        Symbol::Less => "<",
        Symbol::Minus => "-",
        Symbol::Modulus => "\\",
        Symbol::More => ">",
        Symbol::Not => "~",
        Symbol::Or => "|",
        Symbol::Percent => "%",
        Symbol::Plus => "+",
        _ => "*",
    };
    String::from_str(text)
}

/// Why the parser gives no result.
#[derive(Debug, PartialEq)]
pub enum Error {
    /// The text is no class: what was expected or found, and where.
    ParseError { description: String, filename: String, line: usize, position: usize },
    /// The next token is none of those that were asked for.
    MismatchError { expected: Vec<Symbol>, found: Symbol, location: Location },
    /// The input has ended.
    End,
}

impl View for Error {
    type V = ErrorView;

    open spec fn view(&self) -> ErrorView {
        match self {
            Error::ParseError { description, filename, line, position } => ErrorView::ParseError {
                description: description@,
                filename: filename@,
                line: *line,
                position: *position,
            },
            Error::MismatchError { expected, found, location } => ErrorView::MismatchError {
                expected: expected@,
                found: *found,
                location: *location,
            },
            Error::End => ErrorView::End,
        }
    }
}

/// What a token or an error stands for.
pub open spec fn token_view(result: Result<Token, Error>) -> Result<TokenView, ErrorView> {
    match result {
        Ok(token) => Ok(token@),
        Err(error) => Err(error@),
    }
}

/// What a token's text or an error stands for.
pub open spec fn text_view(result: Result<Option<String>, Error>) -> Result<
    Option<Seq<char>>,
    ErrorView,
> {
    match result {
        Ok(text) => Ok(option_view(text)),
        Err(error) => Err(error@),
    }
}

/// What a text stands for, where there is one.
pub open spec fn option_view(text: Option<String>) -> Option<Seq<char>> {
    match text {
        Some(text) => Some(text@),
        None => None,
    }
}

/// What a text or an error stands for.
pub open spec fn string_view(result: Result<String, Error>) -> Result<Seq<char>, ErrorView> {
    match result {
        Ok(text) => Ok(text@),
        Err(error) => Err(error@),
    }
}

/// What a list of names or an error stands for.
pub open spec fn names_view(result: Result<Vec<String>, Error>) -> Result<
    Seq<Seq<char>>,
    ErrorView,
> {
    match result {
        Ok(names) => Ok(strings_view(names@)),
        Err(error) => Err(error@),
    }
}

/// What a selector with its parameters, or an error, stands for.
pub open spec fn pattern_view(result: Result<(String, Vec<String>), Error>) -> Result<
    (Seq<char>, Seq<Seq<char>>),
    ErrorView,
> {
    match result {
        Ok((selector, parameters)) => Ok((selector@, strings_view(parameters@))),
        Err(error) => Err(error@),
    }
}

/// What an expression or an error stands for.
pub open spec fn expression_result(result: Result<Expression, Error>) -> Result<
    ExpressionView,
    ErrorView,
> {
    match result {
        Ok(expression) => Ok(expression@),
        Err(error) => Err(error@),
    }
}

/// What a list of statements or an error stands for.
pub open spec fn statements_view(result: Result<Vec<Expression>, Error>) -> Result<
    Seq<ExpressionView>,
    ErrorView,
> {
    match result {
        Ok(statements) => Ok(expressions_view(statements@)),
        Err(error) => Err(error@),
    }
}

/// What a method under its selector, or an error, stands for.
pub open spec fn method_view(result: Result<(String, Method), Error>) -> Result<
    (Seq<char>, MethodView),
    ErrorView,
> {
    match result {
        Ok((selector, method)) => Ok((selector@, method@)),
        Err(error) => Err(error@),
    }
}

/// What a class or an error stands for.
pub open spec fn class_view(result: Result<Class, Error>) -> Result<ClassView, ErrorView> {
    match result {
        Ok(class) => Ok(class@),
        Err(error) => Err(error@),
    }
}

/// The text of a token, empty where it has none.
fn lexeme(text: Option<String>) -> (lexeme: String)
    ensures
        lexeme@ == grammar::text_of(option_view(text)),
{
    match text {
        Some(text) => text,
        None => String::new(),
    }
}

/// The value of an integer literal.
pub fn parse_integer(lexeme: &str) -> (value: Option<i64>)
    ensures
        value == grammar::integer_value(lexeme@),
{
    let mut value: i64 = 0;
    let mut empty = true;
    for c in it: lexeme.chars()
        invariant
            it.seq() == lexeme@,
            empty == (it.index() == 0),
            grammar::all_digits(lexeme@.take(it.index() as int)),
            value == grammar::decimal_value(lexeme@.take(it.index() as int)),
    {
        let ghost prefix = lexeme@.take(it.index() as int);
        let ghost longer = lexeme@.take(it.index() + 1);
        proof {
            assert(longer.drop_last() == prefix);
            assert(longer.last() == c);
        }
        if !('0' <= c && c <= '9') {
            assert(!grammar::all_digits(lexeme@));
            return None;
        }
        let digit: i64 = (c as u32 - '0' as u32) as i64;
        if value > (i64::MAX - digit) / 10 {
            proof {
                if grammar::all_digits(lexeme@) {
                    grammar::lemma_decimal_value_grows(lexeme@, it.index() + 1);
                }
            }
            return None;
        }
        value = value * 10 + digit;
        empty = false;
        assert(grammar::all_digits(longer)) by {
            assert forall|i: int| 0 <= i < longer.len() implies crate::compiler::lexical::digit(
                #[trigger] longer[i],
            ) by {
                if i < prefix.len() {
                    assert(longer[i] == prefix[i]);
                }
            }
        }
    }
    assert(lexeme@.take(lexeme@.len() as int) == lexeme@);
    if empty {
        None
    } else {
        Some(value)
    }
}

fn pattern_starts() -> (symbols: Vec<Symbol>)
    ensures
        symbols@ == grammar::pattern_starts(),
{
    let symbols = vec![
        Symbol::Identifier,
        Symbol::Keyword,
        Symbol::OperatorSequence,
        Symbol::And,
        Symbol::At,
        Symbol::Comma,
        Symbol::Divide,
        Symbol::Equal,
        Symbol::Less,
        Symbol::Minus,
        Symbol::Modulus,
        Symbol::More,
        Symbol::Not,
        Symbol::Or,
        Symbol::Percent,
        Symbol::Plus,
        Symbol::Star,
    ];
    assert(symbols@ =~= grammar::pattern_starts());
    symbols
}

fn operator_starts() -> (symbols: Vec<Symbol>)
    ensures
        symbols@ == grammar::operator_starts(),
{
    let symbols = vec![
        Symbol::OperatorSequence,
        Symbol::And,
        Symbol::At,
        Symbol::Comma,
        Symbol::Divide,
        Symbol::Equal,
        Symbol::Less,
        Symbol::Minus,
        Symbol::Modulus,
        Symbol::More,
        Symbol::Not,
        Symbol::Or,
        Symbol::Percent,
        Symbol::Plus,
        Symbol::Star,
    ];
    assert(symbols@ =~= grammar::operator_starts());
    symbols
}

fn primary_starts() -> (symbols: Vec<Symbol>)
    ensures
        symbols@ == grammar::primary_starts(),
{
    let symbols = vec![
        Symbol::Identifier,
        Symbol::String,
        Symbol::Integer,
        Symbol::Double,
        Symbol::Pound,
        Symbol::Minus,
        Symbol::NewBlock,
        Symbol::NewTerm,
    ];
    assert(symbols@ =~= grammar::primary_starts());
    symbols
}

fn symbol_starts() -> (symbols: Vec<Symbol>)
    ensures
        symbols@ == grammar::symbol_starts(),
{
    let symbols = vec![
        Symbol::Identifier,
        Symbol::String,
        Symbol::Keyword,
        Symbol::KeywordSequence,
        Symbol::OperatorSequence,
        Symbol::And,
        Symbol::At,
        Symbol::Comma,
        Symbol::Divide,
        Symbol::Equal,
        Symbol::Less,
        Symbol::Minus,
        Symbol::Modulus,
        Symbol::More,
        Symbol::Not,
        Symbol::Or,
        Symbol::Percent,
        Symbol::Plus,
        Symbol::Star,
    ];
    assert(symbols@ =~= grammar::symbol_starts());
    symbols
}

fn number_starts() -> (symbols: Vec<Symbol>)
    ensures
        symbols@ == grammar::number_starts(),
{
    let symbols = vec![Symbol::Integer, Symbol::Double];
    assert(symbols@ =~= grammar::number_starts());
    symbols
}

/// What is said of a token that is none of those expected.
fn describe_mismatch(expected: &Vec<Symbol>, found: Symbol) -> (description: String)
    ensures
        description@ == grammar::mismatch_description(expected@, found),
{
    let mut description = String::from_str("Expected [");
    let mut i: usize = 0;
    while i < expected.len()
        invariant
            i <= expected.len(),
            description@ == "Expected ["@ + grammar::names_list(expected@.take(i as int)),
        decreases expected.len() - i,
    {
        let ghost before = description@;
        if i > 0 {
            description.append(", ");
        }
        description.append(expected[i].as_str());
        proof {
            let now = expected@.take(i + 1);
            assert(now.drop_last() == expected@.take(i as int));
            assert(now.last() == expected@[i as int]);
            if i > 0 {
                assert(description@ == "Expected ["@ + (grammar::names_list(now.drop_last())
                    + ", "@ + now.last().name()));
            } else {
                assert(grammar::names_list(expected@.take(0)) == Seq::<char>::empty());
                assert(description@ == "Expected ["@ + now.last().name());
            }
        }
        i = i + 1;
    }
    assert(expected@.take(i as int) == expected@);
    description.append("], found ");
    description.append(found.as_str());
    description
}

/// Whether `symbol` is one of `symbols`.
fn contains(symbols: &[Symbol], symbol: Symbol) -> (yes: bool)
    ensures
        yes == symbols@.contains(symbol),
{
    let mut i: usize = 0;
    while i < symbols.len()
        invariant
            i <= symbols.len(),
            forall|k: int| 0 <= k < i ==> symbols@[k] != symbol,
        decreases symbols.len() - i,
    {
        if symbols[i] == symbol {
            return true;
        }
        i = i + 1;
    }
    false
}

/// Reads a class from its text.
pub struct Parser {
    lexer: Lexer,
    queue: VecDeque<Item>,
    filename: String,
    consumed: Ghost<Seq<ItemView>>,
}

impl Parser {
    /// The lexer is well formed.
    pub closed spec fn wf(&self) -> bool {
        self.lexer.wf()
    }

    /// All the tokens of the text, with the name of the file.
    pub closed spec fn input(&self) -> Input {
        Input {
            filename: self.filename@,
            tokens: TokenStream {
                items: self.consumed@ + items_view(self.queue@) + self.lexer@.items,
                end: self.lexer@.end,
            },
        }
    }

    /// The number of tokens that have been taken.
    pub closed spec fn index(&self) -> nat {
        self.consumed@.len()
    }

    /// The number of tokens that were read ahead and wait in the queue.
    pub closed spec fn buffered(&self) -> nat {
        self.queue@.len()
    }

    /// This parser has read no further ahead than `before` had, or than
    /// `count` tokens.
    pub open spec fn ahead(&self, before: &Parser, count: nat) -> bool {
        self.buffered() <= before.buffered() || self.buffered() <= count
    }

    /// The number of tokens that are still to come.
    pub open spec fn left(&self) -> nat {
        self.input().left(self.index())
    }

    /// This parser is `before` after nothing was taken.
    pub open spec fn same(&self, before: &Parser) -> bool {
        &&& self.wf()
        &&& self.input() == before.input()
        &&& self.index() == before.index()
    }

    /// This parser is `before` after a rule was applied that says `rule`, and
    /// `result` is what the rule gave.
    pub open spec fn follows<V>(
        &self,
        before: &Parser,
        result: Result<V, ErrorView>,
        rule: Parsed<V>,
    ) -> bool {
        &&& self.wf()
        &&& self.input() == before.input()
        &&& self.ahead(before, 2)
        &&& match rule {
            Ok((value, count)) => result == Ok::<V, ErrorView>(value) && self.index()
                == before.index() + count,
            Err(error) => result == Err::<V, ErrorView>(error) && self.index() >= before.index(),
        }
    }

    /// A parser over a text; errors name `filename` as the file that the text
    /// is from.
    pub fn new(source: &str, filename: &str) -> (parser: Parser)
        ensures
            parser.wf(),
            parser.input() == grammar::input_from(source@, filename@),
            parser.index() == 0,
            parser.buffered() == 0,
    {
        let parser = Parser {
            lexer: Lexer::new(source),
            queue: VecDeque::new(),
            filename: String::from_str(filename),
            consumed: Ghost(Seq::empty()),
        };
        assert(parser.input().tokens.items == token_stream(source@).items);
        parser
    }

    /// A parser over a text that was read in pieces.
    pub fn from_chunks(chunks: &Vec<String>, filename: &str) -> (parser: Parser)
        ensures
            parser.wf(),
            parser.input() == grammar::input_from(concat(chunks_view(chunks@)), filename@),
            parser.index() == 0,
            parser.buffered() == 0,
    {
        let parser = Parser {
            lexer: Lexer::from_chunks(chunks),
            queue: VecDeque::new(),
            filename: String::from_str(filename),
            consumed: Ghost(Seq::empty()),
        };
        assert(parser.input().tokens.items == token_stream(concat(chunks_view(chunks@))).items);
        parser
    }

    /// Brings tokens into the queue until it holds `count` of them.
    fn fill(&mut self, count: usize) -> (result: Result<(), LexerError>)
        requires
            old(self).wf(),
        ensures
            final(self).same(old(self)),
            final(self).ahead(old(self), count as nat),
            final(self).consumed@ == old(self).consumed@,
            final(self).filename == old(self).filename,
            match result {
                Ok(_) => final(self).queue@.len() >= count,
                Err(error) => {
                    &&& final(self).queue@.len() < count
                    &&& final(self).lexer@.items.len() == 0
                    &&& error == final(self).lexer@.end
                },
            },
    {
        while self.queue.len() < count
            invariant
                self.same(old(self)),
                self.ahead(old(self), count as nat),
                self.consumed@ == old(self).consumed@,
                self.filename == old(self).filename,
            decreases self.lexer@.items.len(),
        {
            let ghost before = self.input().tokens.items;
            let ghost queued = items_view(self.queue@);
            let ghost coming = self.lexer@.items;
            match self.lexer.read_token() {
                Ok(item) => {
                    self.queue.push_back(item);
                    proof {
                        assert(items_view(self.queue@) == queued.push(item@));
                        assert(self.input().tokens.items == before);
                    }
                },
                Err(error) => {
                    return Err(error);
                },
            }
        }
        Ok(())
    }

    /// The error of a rule that needs a token where none is left.
    fn ending(&self, error: LexerError) -> (ending: Error)
        requires
            error == self.input().tokens.end,
        ensures
            ending@ == self.input().ending(),
    {
        match error {
            LexerError::End => Error::End,
            LexerError::Unexpected { character, location } => {
                let mut description = String::from_str("Unexpected character ");
                push_char(&mut description, character);
                Error::ParseError {
                    description,
                    filename: self.filename.clone(),
                    line: location.0,
                    position: location.1,
                }
            },
        }
    }

    /// The kind of the `n`-th token to come, counted from 1, where there is
    /// one.
    fn look(&mut self, n: usize) -> (result: Result<Option<Symbol>, Error>)
        requires
            old(self).wf(),
            n >= 1,
        ensures
            final(self).same(old(self)),
            final(self).ahead(old(self), n as nat),
            match result {
                Ok(Some(symbol)) => old(self).input().holds(
                    (old(self).index() + n - 1) as nat,
                    symbol,
                ),
                Ok(None) => {
                    &&& old(self).index() + n - 1 >= old(self).input().len()
                    &&& !old(self).input().broken((old(self).index() + n - 1) as nat)
                },
                Err(error) => {
                    &&& old(self).input().broken((old(self).index() + n - 1) as nat)
                    &&& error@ == old(self).input().ending()
                },
            },
    {
        match self.fill(n) {
            Ok(_) => Ok(Some(self.queue[n - 1].0.0)),
            Err(LexerError::End) => Ok(None),
            Err(error) => Err(self.ending(error)),
        }
    }

    /// The `n`-th token to come, counted from 1. No token is taken.
    pub fn peek(&mut self, n: usize) -> (result: Result<Token, Error>)
        requires
            old(self).wf(),
            n >= 1,
        ensures
            final(self).same(old(self)),
            final(self).ahead(old(self), n as nat),
            token_view(result) == old(self).input().peek((old(self).index() + n - 1) as nat),
    {
        match self.fill(n) {
            Ok(_) => Ok(self.queue[n - 1].0.clone()),
            Err(error) => Err(self.ending(error)),
        }
    }

    /// Takes the next token out of the queue, which holds one.
    fn take(&mut self) -> (token: Token)
        requires
            old(self).wf(),
            old(self).queue@.len() > 0,
        ensures
            final(self).wf(),
            final(self).input() == old(self).input(),
            final(self).buffered() == old(self).buffered() - 1,
            final(self).index() == old(self).index() + 1,
            old(self).index() < old(self).input().len(),
            token@ == old(self).input().token(old(self).index()),
    {
        let ghost before = self.input().tokens.items;
        let item = self.queue.pop_front().unwrap();
        self.consumed = Ghost(self.consumed@.push(item@));
        proof {
            assert(self.input().tokens.items == before);
        }
        item.0
    }

    /// Takes `n` tokens, or all where fewer are left.
    pub fn consume(&mut self, n: usize) -> (result: Result<(), Error>)
        requires
            old(self).wf(),
        ensures
            final(self).wf(),
            final(self).input() == old(self).input(),
            final(self).ahead(old(self), 0),
            result is Ok,
            final(self).index() == if old(self).index() + n <= old(self).input().len() {
                old(self).index() + n
            } else {
                old(self).input().len() as int
            },
    {
        let mut i: usize = 0;
        while i < n
            invariant
                i <= n,
                self.wf(),
                self.input() == old(self).input(),
                self.ahead(old(self), 0),
                self.index() == if old(self).index() + i <= old(self).input().len() {
                    old(self).index() + i
                } else {
                    old(self).input().len() as int
                },
            decreases n - i,
        {
            match self.fill(1) {
                Ok(_) => {
                    let _ = self.take();
                },
                Err(_) => {},
            }
            i = i + 1;
        }
        Ok(())
    }

    /// Takes the next token if it is of the kind expected.
    pub fn accept(&mut self, expected: Symbol) -> (result: Result<Token, Error>)
        requires
            old(self).wf(),
        ensures
            final(self).wf(),
            final(self).input() == old(self).input(),
            final(self).ahead(old(self), 1),
            token_view(result) == old(self).input().accept(old(self).index(), expected),
            final(self).index() == old(self).index() + if result is Ok {
                1nat
            } else {
                0nat
            },
    {
        match self.fill(1) {
            Err(error) => Err(self.ending(error)),
            Ok(_) => {
                let found = self.queue[0].0.0;
                if found == expected {
                    Ok(self.take())
                } else {
                    let expected = vec![expected];
                    assert(expected@ =~= seq![expected@[0]]);
                    Err(Error::MismatchError { expected, found, location: self.queue[0].1 })
                }
            },
        }
    }

    /// Takes the next token if it is one of those expected.
    pub fn accept_one_of(&mut self, expected: &[Symbol]) -> (result: Result<Token, Error>)
        requires
            old(self).wf(),
        ensures
            final(self).wf(),
            final(self).input() == old(self).input(),
            final(self).ahead(old(self), 1),
            token_view(result) == old(self).input().accept_one_of(old(self).index(), expected@),
            final(self).index() == old(self).index() + if result is Ok {
                1nat
            } else {
                0nat
            },
    {
        match self.fill(1) {
            Err(error) => Err(self.ending(error)),
            Ok(_) => {
                let found = self.queue[0].0.0;
                if contains(expected, found) {
                    Ok(self.take())
                } else {
                    Err(
                        Error::MismatchError {
                            expected: slice_to_vec(expected),
                            found,
                            location: self.queue[0].1,
                        },
                    )
                }
            },
        }
    }

    /// The error that says where and why a mismatch stopped the parser.
    fn promote(&self, error: Error) -> (promoted: Error)
        ensures
            promoted@ == match error@ {
                ErrorView::MismatchError { expected, found, location } => self.input().error_at(
                    grammar::mismatch_description(expected, found),
                    location,
                ),
                other => other,
            },
    {
        match error {
            Error::MismatchError { expected, found, location } => Error::ParseError {
                description: describe_mismatch(&expected, found),
                filename: self.filename.clone(),
                line: location.0,
                position: location.1,
            },
            other => other,
        }
    }

    /// Takes the next token, which must be of the kind expected, and gives
    /// its text.
    pub fn expect(&mut self, expected: Symbol) -> (result: Result<Option<String>, Error>)
        requires
            old(self).wf(),
        ensures
            final(self).follows(
                old(self),
                text_view(result),
                match old(self).input().expect(old(self).index(), expected) {
                    Ok(text) => Ok((text, 1nat)),
                    Err(error) => Err(error),
                },
            ),
    {
        match self.accept(expected) {
            Ok(token) => Ok(token.1),
            Err(error) => Err(self.promote(error)),
        }
    }

    /// Takes the next token, which must be one of those expected, and gives
    /// its text.
    pub fn expect_one_of(&mut self, expected: &[Symbol]) -> (result: Result<
        Option<String>,
        Error,
    >)
        requires
            old(self).wf(),
        ensures
            final(self).follows(
                old(self),
                text_view(result),
                match old(self).input().expect_one_of(old(self).index(), expected@) {
                    Ok(text) => Ok((text, 1nat)),
                    Err(error) => Err(error),
                },
            ),
    {
        match self.accept_one_of(expected) {
            Ok(token) => Ok(token.1),
            Err(error) => Err(self.promote(error)),
        }
    }

    /// The error of a rule that finds none of the tokens that it can start
    /// with.
    fn refuse(&mut self, expected: Vec<Symbol>) -> (error: Error)
        requires
            old(self).wf(),
        ensures
            final(self).same(old(self)),
            final(self).ahead(old(self), 1),
            error@ == old(self).input().refusal(old(self).index(), expected@),
    {
        match self.fill(1) {
            Err(error) => self.ending(error),
            Ok(_) => Error::ParseError {
                description: describe_mismatch(&expected, self.queue[0].0.0),
                filename: self.filename.clone(),
                line: self.queue[0].1.0,
                position: self.queue[0].1.1,
            },
        }
    }

    /// Takes the next token, which `look` has found.
    fn take_ahead(&mut self) -> (token: Token)
        requires
            old(self).wf(),
            old(self).index() < old(self).input().len(),
        ensures
            final(self).wf(),
            final(self).input() == old(self).input(),
            final(self).ahead(old(self), 0),
            final(self).index() == old(self).index() + 1,
            token@ == old(self).input().token(old(self).index()),
    {
        let filled = self.fill(1);
        assert(filled is Ok);
        self.take()
    }

    /// The place of the next token, which `look` has found.
    fn location_ahead(&mut self) -> (location: Location)
        requires
            old(self).wf(),
            old(self).index() < old(self).input().len(),
        ensures
            final(self).same(old(self)),
            final(self).ahead(old(self), 1),
            location == old(self).input().location(old(self).index()),
    {
        let filled = self.fill(1);
        assert(filled is Ok);
        self.queue[0].1
    }

    /// The selector that the next token is as a binary operator, where it is
    /// one. No token is taken.
    fn operator_ahead(&mut self) -> (result: Result<Option<String>, Error>)
        requires
            old(self).wf(),
        ensures
            final(self).same(old(self)),
            final(self).ahead(old(self), 1),
            match result {
                Ok(Some(selector)) => {
                    &&& old(self).index() < old(self).input().len()
                    &&& grammar::binary_selector(old(self).input().token(old(self).index()))
                        == Some(selector@)
                },
                Ok(None) => {
                    &&& !old(self).input().broken(old(self).index())
                    &&& !(old(self).index() < old(self).input().len()
                        && grammar::binary_selector(
                        old(self).input().token(old(self).index()),
                    ) is Some)
                },
                Err(error) => {
                    &&& old(self).input().broken(old(self).index())
                    &&& error@ == old(self).input().ending()
                },
            },
    {
        match self.fill(1) {
            Ok(_) => {
                let symbol = self.queue[0].0.0;
                if symbol == Symbol::OperatorSequence {
                    Ok(Some(self.queue[0].0.clone().into_lexeme()))
                } else if is_binary_operator(&symbol) {
                    Ok(Some(binary_symbol_to_string(&symbol)))
                } else {
                    Ok(None)
                }
            },
            Err(LexerError::End) => Ok(None),
            Err(error) => Err(self.ending(error)),
        }
    }

    fn parse_superclass_name(&mut self) -> (result: Result<String, Error>)
        requires
            old(self).wf(),
        ensures
            final(self).follows(
                old(self),
                string_view(result),
                grammar::superclass_name(old(self).input(), old(self).index()),
            ),
    {
        match self.accept(Symbol::Identifier) {
            Ok(token) => Ok(token.into_lexeme()),
            Err(Error::MismatchError { .. }) => Ok(String::from_str("Object")),
            Err(error) => Err(error),
        }
    }

    fn parse_locals(&mut self) -> (result: Result<Vec<String>, Error>)
        requires
            old(self).wf(),
        ensures
            final(self).follows(
                old(self),
                names_view(result),
                grammar::locals(old(self).input(), old(self).index()),
            ),
    {
        let ghost input = self.input();
        let ghost start = self.index();
        let mut locals: Vec<String> = Vec::new();
        assert(strings_view(locals@) =~= Seq::<Seq<char>>::empty());
        match self.look(1)? {
            Some(Symbol::Or) => {},
            _ => {
                return Ok(locals);
            },
        }
        let _ = self.take_ahead();
        loop
            invariant
                self.wf(),
                self.ahead(old(self), 2),
                input == old(self).input(),
                start == old(self).index(),
                self.input() == input,
                input.holds(start, Symbol::Or),
                self.index() == start + 1 + locals@.len(),
                grammar::identifiers(input, start + 1) == strings_view(locals@)
                    + grammar::identifiers(input, self.index()),
            decreases self.left(),
        {
            let ghost found = strings_view(locals@);
            match self.accept(Symbol::Identifier) {
                Ok(token) => {
                    let ghost others = grammar::identifiers(input, self.index());
                    locals.push(token.into_lexeme());
                    assert(strings_view(locals@) =~= found.push(token@.lexeme()));
                    assert(found.push(token@.lexeme()) + others =~= found + (seq![
                        token@.lexeme(),
                    ] + others));
                },
                Err(_) => {
                    assert(found + Seq::<Seq<char>>::empty() =~= found);
                    self.expect(Symbol::Or)?;
                    return Ok(locals);
                },
            }
        }
    }

    fn parse_block_parameters(&mut self) -> (result: Result<Vec<String>, Error>)
        requires
            old(self).wf(),
        ensures
            final(self).follows(
                old(self),
                names_view(result),
                grammar::block_parameters(old(self).input(), old(self).index()),
            ),
    {
        let ghost input = self.input();
        let ghost start = self.index();
        let mut parameters: Vec<String> = Vec::new();
        assert(strings_view(parameters@) =~= Seq::<Seq<char>>::empty());
        loop
            invariant
                self.wf(),
                self.ahead(old(self), 2),
                input == old(self).input(),
                start == old(self).index(),
                self.input() == input,
                self.index() >= start,
                grammar::colon_names(input, start) == extended(
                    strings_view(parameters@),
                    (self.index() - start) as nat,
                    grammar::colon_names(input, self.index()),
                ),
            decreases self.left(),
        {
            let ghost found = strings_view(parameters@);
            match self.look(1)? {
                Some(Symbol::Colon) => {
                    let _ = self.take_ahead();
                    let parameter = lexeme(self.expect(Symbol::Identifier)?);
                    parameters.push(parameter);
                    proof {
                        assert(strings_view(parameters@) =~= found.push(parameter@));
                        match grammar::colon_names(input, self.index()) {
                            Ok((names, count)) => {
                                assert(found.push(parameter@) + names =~= found + (seq![
                                    parameter@,
                                ] + names));
                            },
                            Err(_) => {},
                        }
                    }
                },
                _ => {
                    assert(found + Seq::<Seq<char>>::empty() =~= found);
                    if parameters.len() > 0 {
                        self.expect(Symbol::Or)?;
                    }
                    return Ok(parameters);
                },
            }
        }
    }

    fn parse_unary_pattern(&mut self) -> (result: Result<(String, Vec<String>), Error>)
        requires
            old(self).wf(),
        ensures
            final(self).follows(
                old(self),
                pattern_view(result),
                grammar::unary_pattern(old(self).input(), old(self).index()),
            ),
    {
        let name = lexeme(self.expect(Symbol::Identifier)?);
        let parameters: Vec<String> = Vec::new();
        assert(strings_view(parameters@) =~= Seq::<Seq<char>>::empty());
        Ok((name, parameters))
    }

    fn parse_keyword_pattern(&mut self) -> (result: Result<(String, Vec<String>), Error>)
        requires
            old(self).wf(),
        ensures
            final(self).follows(
                old(self),
                pattern_view(result),
                grammar::keyword_pattern(old(self).input(), old(self).index()),
            ),
    {
        let ghost input = self.input();
        let ghost start = self.index();
        let mut name = lexeme(self.expect(Symbol::Keyword)?);
        let mut parameters: Vec<String> = Vec::new();
        parameters.push(lexeme(self.expect(Symbol::Identifier)?));
        assert(strings_view(parameters@) =~= seq![parameters@[0]@]);
        loop
            invariant
                self.wf(),
                self.ahead(old(self), 2),
                input == old(self).input(),
                start == old(self).index(),
                self.input() == input,
                self.index() >= start + 2,
                grammar::keyword_pattern(input, start) == joined(
                    name@,
                    strings_view(parameters@),
                    (self.index() - start) as nat,
                    grammar::keyword_pattern_rest(input, self.index()),
                ),
            decreases self.left(),
        {
            let ghost found = strings_view(parameters@);
            let ghost selector = name@;
            match self.accept(Symbol::Keyword) {
                Ok(token) => {
                    let keyword = token.into_lexeme();
                    name.append(keyword.as_str());
                    let parameter = lexeme(self.expect(Symbol::Identifier)?);
                    parameters.push(parameter);
                    proof {
                        assert(strings_view(parameters@) =~= found.push(parameter@));
                        match grammar::keyword_pattern_rest(input, self.index()) {
                            Ok(((rest, values), count)) => {
                                assert(found.push(parameter@) + values =~= found + (seq![
                                    parameter@,
                                ] + values));
                                assert((selector + keyword@) + rest =~= selector + (keyword@
                                    + rest));
                            },
                            Err(_) => {},
                        }
                    }
                },
                Err(Error::MismatchError { .. }) => {
                    assert(found + Seq::<Seq<char>>::empty() =~= found);
                    assert(selector + Seq::<char>::empty() =~= selector);
                    return Ok((name, parameters));
                },
                Err(error) => {
                    return Err(error);
                },
            }
        }
    }

    fn parse_binary_pattern(&mut self) -> (result: Result<(String, Vec<String>), Error>)
        requires
            old(self).wf(),
        ensures
            final(self).follows(
                old(self),
                pattern_view(result),
                grammar::binary_pattern(old(self).input(), old(self).index()),
            ),
    {
        let name = match self.operator_ahead()? {
            Some(name) => name,
            None => {
                return Err(self.refuse(operator_starts()));
            },
        };
        let _ = self.take_ahead();
        let mut parameters: Vec<String> = Vec::new();
        parameters.push(lexeme(self.expect(Symbol::Identifier)?));
        assert(strings_view(parameters@) =~= seq![parameters@[0]@]);
        Ok((name, parameters))
    }

    fn parse_pattern(&mut self) -> (result: Result<(String, Vec<String>), Error>)
        requires
            old(self).wf(),
        ensures
            final(self).follows(
                old(self),
                pattern_view(result),
                grammar::pattern(old(self).input(), old(self).index()),
            ),
    {
        match self.look(1)? {
            Some(Symbol::Identifier) => self.parse_unary_pattern(),
            Some(Symbol::Keyword) => self.parse_keyword_pattern(),
            Some(symbol) => {
                if symbol == Symbol::OperatorSequence || is_binary_operator(&symbol) {
                    self.parse_binary_pattern()
                } else {
                    Err(self.refuse(pattern_starts()))
                }
            },
            None => Err(self.refuse(pattern_starts())),
        }
    }

    fn parse_assignments(&mut self) -> (result: Result<Vec<String>, Error>)
        requires
            old(self).wf(),
        ensures
            final(self).follows(
                old(self),
                names_view(result),
                grammar::assignments(old(self).input(), old(self).index()),
            ),
    {
        let ghost input = self.input();
        let ghost start = self.index();
        let mut assignments: Vec<String> = Vec::new();
        assert(strings_view(assignments@) =~= Seq::<Seq<char>>::empty());
        loop
            invariant
                self.wf(),
                self.ahead(old(self), 2),
                input == old(self).input(),
                start == old(self).index(),
                self.input() == input,
                self.index() >= start,
                grammar::assignments(input, start) == extended(
                    strings_view(assignments@),
                    (self.index() - start) as nat,
                    grammar::assignments(input, self.index()),
                ),
            decreases self.left(),
        {
            let ghost found = strings_view(assignments@);
            match self.look(2)? {
                Some(Symbol::Assign) => {
                    let variable = lexeme(self.expect(Symbol::Identifier)?);
                    assignments.push(variable);
                    self.expect(Symbol::Assign)?;
                    proof {
                        assert(strings_view(assignments@) =~= found.push(variable@));
                        match grammar::assignments(input, self.index()) {
                            Ok((names, count)) => {
                                assert(found.push(variable@) + names =~= found + (seq![
                                    variable@,
                                ] + names));
                            },
                            Err(_) => {},
                        }
                    }
                },
                _ => {
                    assert(found + Seq::<Seq<char>>::empty() =~= found);
                    return Ok(assignments);
                },
            }
        }
    }

    fn parse_expression_variable(&mut self) -> (result: Result<Expression, Error>)
        requires
            old(self).wf(),
        ensures
            final(self).follows(
                old(self),
                expression_result(result),
                grammar::variable_expression(old(self).input(), old(self).index()),
            ),
    {
        let variable = lexeme(self.expect(Symbol::Identifier)?);
        let value = if variable == String::from_str("nil") {
            Expression::LiteralNil
        } else if variable == String::from_str("true") {
            Expression::LiteralBoolean(true)
        } else if variable == String::from_str("false") {
            Expression::LiteralBoolean(false)
        } else {
            Expression::Variable(variable)
        };
        Ok(value)
    }

    fn parse_expression_string(&mut self) -> (result: Result<Expression, Error>)
        requires
            old(self).wf(),
        ensures
            final(self).follows(
                old(self),
                expression_result(result),
                grammar::string_expression(old(self).input(), old(self).index()),
            ),
    {
        let value = lexeme(self.expect(Symbol::String)?);
        Ok(Expression::LiteralString(value))
    }

    fn parse_expression_symbol(&mut self) -> (result: Result<Expression, Error>)
        requires
            old(self).wf(),
        ensures
            final(self).follows(
                old(self),
                expression_result(result),
                grammar::symbol_literal(old(self).input(), old(self).index()),
            ),
    {
        self.expect(Symbol::Pound)?;
        let named = match self.look(1)? {
            Some(symbol) => symbol == Symbol::Identifier || symbol == Symbol::String || symbol
                == Symbol::Keyword || symbol == Symbol::KeywordSequence || symbol
                == Symbol::OperatorSequence || is_binary_operator(&symbol),
            None => false,
        };
        if !named {
            return Err(self.refuse(symbol_starts()));
        }
        let token = self.take_ahead();
        let value = if is_binary_operator(&token.0) {
            binary_symbol_to_string(&token.0)
        } else {
            token.into_lexeme()
        };
        Ok(Expression::LiteralSymbol(value))
    }

    fn parse_expression_negative_number(&mut self) -> (result: Result<Expression, Error>)
        requires
            old(self).wf(),
        ensures
            final(self).follows(
                old(self),
                expression_result(result),
                grammar::negative_number(old(self).input(), old(self).index()),
            ),
    {
        self.expect(Symbol::Minus)?;
        self.parse_expression_number(true)
    }

    fn parse_expression_number(&mut self, negative: bool) -> (result: Result<Expression, Error>)
        requires
            old(self).wf(),
        ensures
            final(self).follows(
                old(self),
                expression_result(result),
                grammar::number(old(self).input(), old(self).index(), negative),
            ),
    {
        match self.look(1)? {
            Some(Symbol::Integer) => {
                let location = self.location_ahead();
                let text = self.take_ahead().into_lexeme();
                match parse_integer(text.as_str()) {
                    Some(value) => Ok(
                        Expression::LiteralInteger(
                            if negative {
                                -value
                            } else {
                                value
                            },
                        ),
                    ),
                    None => {
                        let mut description = String::from_str("Integer out of range: ");
                        description.append(text.as_str());
                        Err(
                            Error::ParseError {
                                description,
                                filename: self.filename.clone(),
                                line: location.0,
                                position: location.1,
                            },
                        )
                    },
                }
            },
            Some(Symbol::Double) => {
                let lexeme = self.take_ahead().into_lexeme();
                Ok(Expression::LiteralDouble(Decimal { negative, lexeme }))
            },
            _ => Err(self.refuse(number_starts())),
        }
    }

    fn parse_expression_unary_message(&mut self, value: Expression) -> (result: Result<
        Expression,
        Error,
    >)
        requires
            old(self).wf(),
        ensures
            final(self).follows(
                old(self),
                expression_result(result),
                grammar::unary_message(old(self).input(), old(self).index(), value@),
            ),
    {
        let message = lexeme(self.expect(Symbol::Identifier)?);
        Ok(Expression::UnaryMessage { receiver: Box::new(value), message })
    }

    /// The unary messages that follow each other, each sent to what stands
    /// before it.
    fn parse_unary_messages(&mut self, value: Expression) -> (result: Result<Expression, Error>)
        requires
            old(self).wf(),
        ensures
            final(self).follows(
                old(self),
                expression_result(result),
                grammar::unary_messages(old(self).input(), old(self).index(), value@),
            ),
    {
        let ghost input = self.input();
        let ghost start = self.index();
        let mut expression = value;
        loop
            invariant
                self.wf(),
                self.ahead(old(self), 2),
                input == old(self).input(),
                start == old(self).index(),
                self.input() == input,
                self.index() >= start,
                grammar::unary_messages(input, start, value@) == shifted(
                    grammar::unary_messages(input, self.index(), expression@),
                    (self.index() - start) as nat,
                ),
            decreases self.left(),
        {
            match self.look(1)? {
                Some(Symbol::Identifier) => {
                    expression = self.parse_expression_unary_message(expression)?;
                },
                _ => {
                    return Ok(expression);
                },
            }
        }
    }

    /// The binary messages that follow each other, each sent to what stands
    /// before it.
    fn parse_binary_messages(&mut self, value: Expression) -> (result: Result<Expression, Error>)
        requires
            old(self).wf(),
        ensures
            final(self).follows(
                old(self),
                expression_result(result),
                grammar::binary_messages(old(self).input(), old(self).index(), value@),
            ),
        decreases old(self).left(), 1nat,
    {
        let ghost input = self.input();
        let ghost start = self.index();
        let mut expression = value;
        loop
            invariant
                self.wf(),
                self.ahead(old(self), 2),
                input == old(self).input(),
                start == old(self).index(),
                self.input() == input,
                self.index() >= start,
                grammar::binary_messages(input, start, value@) == shifted(
                    grammar::binary_messages(input, self.index(), expression@),
                    (self.index() - start) as nat,
                ),
            decreases self.left(),
        {
            proof {
                grammar::lemma_binary_messages_step(input, self.index(), expression@);
            }
            match self.look(1)? {
                Some(symbol) => {
                    if symbol == Symbol::OperatorSequence || is_binary_operator(&symbol) {
                        expression = self.parse_expression_binary_message(expression)?;
                    } else {
                        return Ok(expression);
                    }
                },
                None => {
                    return Ok(expression);
                },
            }
        }
    }

    /// Reads the statements of a block or of a method.
    pub fn parse_block_body(&mut self) -> (result: Result<Vec<Expression>, Error>)
        requires
            old(self).wf(),
        ensures
            final(self).follows(
                old(self),
                statements_view(result),
                grammar::block_body(old(self).input(), old(self).index()),
            ),
        decreases old(self).left(), 6nat,
    {
        let ghost input = self.input();
        let ghost start = self.index();
        let mut statements: Vec<Expression> = Vec::new();
        assert(expressions_view(statements@) =~= Seq::<ExpressionView>::empty());
        loop
            invariant
                self.wf(),
                self.ahead(old(self), 2),
                input == old(self).input(),
                start == old(self).index(),
                self.input() == input,
                self.index() >= start,
                grammar::block_body(input, start) == extended(
                    expressions_view(statements@),
                    (self.index() - start) as nat,
                    grammar::block_body(input, self.index()),
                ),
            decreases self.left(),
        {
            let ghost found = expressions_view(statements@);
            let ghost at = self.index();
            proof {
                grammar::lemma_block_body_step(input, at);
                assert(found + Seq::<ExpressionView>::empty() =~= found);
            }
            let statement = match self.look(1)? {
                None => {
                    return Ok(statements);
                },
                Some(Symbol::EndTerm) => {
                    return Ok(statements);
                },
                Some(Symbol::EndBlock) => {
                    return Ok(statements);
                },
                Some(Symbol::Exit) => self.parse_result()?,
                Some(_) => self.parse_statement()?,
            };
            statements.push(statement);
            assert(expressions_view(statements@) =~= found.push(statement@));
            assert(found + seq![statement@] =~= found.push(statement@));
            match self.look(1)? {
                Some(Symbol::Period) => {
                    let _ = self.take_ahead();
                    proof {
                        match grammar::block_body(input, self.index()) {
                            Ok((others, more)) => {
                                assert(found.push(statement@) + others =~= found + (seq![
                                    statement@,
                                ] + others));
                            },
                            Err(_) => {},
                        }
                    }
                },
                _ => {
                    return Ok(statements);
                },
            }
        }
    }

    /// A statement that returns nothing.
    fn parse_statement(&mut self) -> (result: Result<Expression, Error>)
        requires
            old(self).wf(),
            !old(self).input().holds(old(self).index(), Symbol::Exit),
        ensures
            final(self).follows(
                old(self),
                expression_result(result),
                grammar::statement(old(self).input(), old(self).index()),
            ),
        decreases old(self).left(), 5nat,
    {
        proof {
            grammar::lemma_statement_step(self.input(), self.index());
        }
        self.parse_expression()
    }

    fn parse_result(&mut self) -> (result: Result<Expression, Error>)
        requires
            old(self).wf(),
            old(self).input().holds(old(self).index(), Symbol::Exit),
        ensures
            final(self).follows(
                old(self),
                expression_result(result),
                grammar::statement(old(self).input(), old(self).index()),
            ),
        decreases old(self).left(), 5nat,
    {
        proof {
            grammar::lemma_statement_step(self.input(), self.index());
        }
        self.expect(Symbol::Exit)?;
        let statement = Box::new(self.parse_expression()?);
        Ok(Expression::Return(statement))
    }

    /// Reads an expression.
    pub fn parse_expression(&mut self) -> (result: Result<Expression, Error>)
        requires
            old(self).wf(),
        ensures
            final(self).follows(
                old(self),
                expression_result(result),
                grammar::expression(old(self).input(), old(self).index()),
            ),
        decreases old(self).left(), 4nat,
    {
        proof {
            grammar::lemma_expression_step(self.input(), self.index());
        }
        match self.look(2)? {
            Some(Symbol::Assign) => {
                let variables = self.parse_assignments()?;
                let value = Box::new(self.parse_expression()?);
                Ok(Expression::Assignment { variables, value })
            },
            _ => {
                let primary = self.parse_expression_primary()?;
                self.parse_expression_messages(primary)
            },
        }
    }

    fn parse_expression_primary(&mut self) -> (result: Result<Expression, Error>)
        requires
            old(self).wf(),
        ensures
            final(self).follows(
                old(self),
                expression_result(result),
                grammar::primary(old(self).input(), old(self).index()),
            ),
        decreases old(self).left(), 1nat,
    {
        proof {
            grammar::lemma_primary_step(self.input(), self.index());
        }
        match self.look(1)? {
            Some(Symbol::Identifier) => self.parse_expression_variable(),
            Some(Symbol::String) => self.parse_expression_string(),
            Some(Symbol::Integer) => self.parse_expression_number(false),
            Some(Symbol::Double) => self.parse_expression_number(false),
            Some(Symbol::Pound) => self.parse_expression_symbol(),
            Some(Symbol::Minus) => self.parse_expression_negative_number(),
            Some(Symbol::NewBlock) => self.parse_expression_nested_block(),
            Some(Symbol::NewTerm) => self.parse_expression_nested_term(),
            _ => Err(self.refuse(primary_starts())),
        }
    }

    /// The messages sent to a value: unary messages, then binary messages,
    /// then one keyword message.
    fn parse_expression_messages(&mut self, value: Expression) -> (result: Result<
        Expression,
        Error,
    >)
        requires
            old(self).wf(),
        ensures
            final(self).follows(
                old(self),
                expression_result(result),
                grammar::messages(old(self).input(), old(self).index(), value@),
            ),
        decreases old(self).left(), 3nat,
    {
        proof {
            grammar::lemma_messages_step(self.input(), self.index(), value@);
        }
        let expression = self.parse_unary_messages(value)?;
        let expression = self.parse_binary_messages(expression)?;
        match self.look(1)? {
            Some(Symbol::Keyword) => self.parse_expression_keyword_message(expression),
            _ => Ok(expression),
        }
    }

    fn parse_expression_nested_block(&mut self) -> (result: Result<Expression, Error>)
        requires
            old(self).wf(),
        ensures
            final(self).follows(
                old(self),
                expression_result(result),
                grammar::nested_block(old(self).input(), old(self).index()),
            ),
        decreases old(self).left(), 0nat,
    {
        proof {
            grammar::lemma_nested_block_step(self.input(), self.index());
        }
        self.expect(Symbol::NewBlock)?;
        let parameters = self.parse_block_parameters()?;
        let locals = self.parse_locals()?;
        let body = self.parse_block_body()?;
        self.expect(Symbol::EndBlock)?;
        proof {
            lemma_block_view(parameters, locals, body);
        }
        Ok(Expression::Block { parameters, locals, body })
    }

    fn parse_expression_nested_term(&mut self) -> (result: Result<Expression, Error>)
        requires
            old(self).wf(),
        ensures
            final(self).follows(
                old(self),
                expression_result(result),
                grammar::nested_term(old(self).input(), old(self).index()),
            ),
        decreases old(self).left(), 0nat,
    {
        proof {
            grammar::lemma_nested_term_step(self.input(), self.index());
        }
        self.expect(Symbol::NewTerm)?;
        let value = self.parse_expression()?;
        self.expect(Symbol::EndTerm)?;
        Ok(value)
    }

    fn parse_expression_keyword_message(&mut self, value: Expression) -> (result: Result<
        Expression,
        Error,
    >)
        requires
            old(self).wf(),
        ensures
            final(self).follows(
                old(self),
                expression_result(result),
                grammar::keyword_message(old(self).input(), old(self).index(), value@),
            ),
        decreases old(self).left(), 1nat,
    {
        let ghost input = self.input();
        let ghost start = self.index();
        let mut message = String::new();
        let mut parameters: Vec<Expression> = Vec::new();
        assert(expressions_view(parameters@) =~= Seq::<ExpressionView>::empty());
        assert(message@ + Seq::<char>::empty() =~= Seq::<char>::empty());
        loop
            invariant
                self.wf(),
                self.ahead(old(self), 2),
                input == old(self).input(),
                start == old(self).index(),
                self.input() == input,
                self.index() >= start,
                grammar::keyword_parts(input, start) == joined(
                    message@,
                    expressions_view(parameters@),
                    (self.index() - start) as nat,
                    grammar::keyword_parts(input, self.index()),
                ),
            decreases self.left(),
        {
            let ghost found = expressions_view(parameters@);
            let ghost selector = message@;
            proof {
                grammar::lemma_keyword_parts_step(input, self.index());
                grammar::lemma_keyword_message(input, start, value@);
            }
            match self.look(1)? {
                Some(Symbol::Keyword) => {
                    let keyword = self.take_ahead().into_lexeme();
                    message.append(keyword.as_str());
                    let parameter = self.parse_expression_formula()?;
                    parameters.push(parameter);
                    proof {
                        assert(expressions_view(parameters@) =~= found.push(parameter@));
                        match grammar::keyword_parts(input, self.index()) {
                            Ok(((rest, values), count)) => {
                                assert(found.push(parameter@) + values =~= found + (seq![
                                    parameter@,
                                ] + values));
                                assert((selector + keyword@) + rest =~= selector + (keyword@
                                    + rest));
                            },
                            Err(_) => {},
                        }
                    }
                },
                _ => {
                    assert(found + Seq::<ExpressionView>::empty() =~= found);
                    assert(selector + Seq::<char>::empty() =~= selector);
                    let receiver = Box::new(value);
                    proof {
                        lemma_keyword_message_view(message, receiver, parameters);
                    }
                    return Ok(Expression::KeywordMessage { receiver, message, parameters });
                },
            }
        }
    }

    fn parse_expression_formula(&mut self) -> (result: Result<Expression, Error>)
        requires
            old(self).wf(),
        ensures
            final(self).follows(
                old(self),
                expression_result(result),
                grammar::formula(old(self).input(), old(self).index()),
            ),
        decreases old(self).left(), 3nat,
    {
        proof {
            grammar::lemma_formula_step(self.input(), self.index());
        }
        let value = self.parse_expression_binary_operand()?;
        self.parse_binary_messages(value)
    }

    fn parse_expression_binary_operand(&mut self) -> (result: Result<Expression, Error>)
        requires
            old(self).wf(),
        ensures
            final(self).follows(
                old(self),
                expression_result(result),
                grammar::operand(old(self).input(), old(self).index()),
            ),
        decreases old(self).left(), 2nat,
    {
        proof {
            grammar::lemma_operand_step(self.input(), self.index());
        }
        let value = self.parse_expression_primary()?;
        self.parse_unary_messages(value)
    }

    fn parse_expression_binary_message(&mut self, value: Expression) -> (result: Result<
        Expression,
        Error,
    >)
        requires
            old(self).wf(),
        ensures
            final(self).follows(
                old(self),
                expression_result(result),
                grammar::binary_message(old(self).input(), old(self).index(), value@),
            ),
        decreases old(self).left(), 0nat,
    {
        reveal(grammar::binary_message);
        let message = match self.operator_ahead()? {
            Some(message) => message,
            None => {
                return Err(self.refuse(operator_starts()));
            },
        };
        let _ = self.take_ahead();
        let right = Box::new(self.parse_expression_binary_operand()?);
        Ok(Expression::BinaryMessage { message, left: Box::new(value), right })
    }

    /// Reads a method, and gives it with its selector.
    pub fn parse_method(&mut self) -> (result: Result<(String, Method), Error>)
        requires
            old(self).wf(),
        ensures
            final(self).follows(
                old(self),
                method_view(result),
                grammar::method(old(self).input(), old(self).index()),
            ),
    {
        reveal(grammar::method);
        let (name, parameters) = self.parse_pattern()?;
        self.expect(Symbol::Equal)?;
        let method = self.parse_method_body(name.clone(), parameters)?;
        Ok((name, method))
    }

    /// Reads what stands behind the equals sign of a method.
    fn parse_method_body(&mut self, name: String, parameters: Vec<String>) -> (result: Result<
        Method,
        Error,
    >)
        requires
            old(self).wf(),
        ensures
            final(self).follows(
                old(self),
                match result {
                    Ok(method) => Ok(method@),
                    Err(error) => Err(error@),
                },
                grammar::method_body(
                    old(self).input(),
                    old(self).index(),
                    name@,
                    strings_view(parameters@),
                ),
            ),
    {
        reveal(grammar::method_body);
        match self.accept(Symbol::Primitive) {
            Ok(_) => Ok(Method::Primitive { name, parameters }),
            Err(_) => {
                self.expect(Symbol::NewTerm)?;
                let locals = self.parse_locals()?;
                let body = self.parse_block_body()?;
                self.expect(Symbol::EndTerm)?;
                Ok(Method::Native { name, parameters, locals, body })
            },
        }
    }

    /// The kind of the next token, which there must be.
    fn peek_symbol(&mut self) -> (result: Result<Symbol, Error>)
        requires
            old(self).wf(),
        ensures
            final(self).same(old(self)),
            final(self).ahead(old(self), 1),
            match result {
                Ok(symbol) => old(self).input().peek(old(self).index()) matches Ok(token)
                    && token.symbol == symbol,
                Err(error) => old(self).input().peek(old(self).index()) == Err::<
                    TokenView,
                    ErrorView,
                >(error@),
            },
    {
        match self.fill(1) {
            Ok(_) => Ok(self.queue[0].0.0),
            Err(error) => Err(self.ending(error)),
        }
    }

    /// The methods that follow each other, each under its selector.
    fn parse_methods(&mut self) -> (result: Result<Methods, Error>)
        requires
            old(self).wf(),
        ensures
            result matches Ok(methods) ==> methods.wf(),
            final(self).follows(
                old(self),
                match result {
                    Ok(methods) => Ok(methods@),
                    Err(error) => Err(error@),
                },
                grammar::methods(
                    old(self).input(),
                    old(self).index(),
                    Map::<Seq<char>, MethodView>::empty(),
                ),
            ),
    {
        let ghost input = self.input();
        let ghost start = self.index();
        let mut methods = Methods::new();
        loop
            invariant
                self.wf(),
                self.ahead(old(self), 2),
                methods.wf(),
                input == old(self).input(),
                start == old(self).index(),
                self.input() == input,
                self.index() >= start,
                grammar::methods(input, start, Map::<Seq<char>, MethodView>::empty()) == shifted(
                    grammar::methods(input, self.index(), methods@),
                    (self.index() - start) as nat,
                ),
            decreases self.left(),
        {
            proof {
                grammar::lemma_methods_step(input, self.index(), methods@);
                grammar::lemma_method_advances(input, self.index());
            }
            let symbol = self.peek_symbol()?;
            if symbol == Symbol::Identifier || symbol == Symbol::Keyword || symbol
                == Symbol::OperatorSequence || is_binary_operator(&symbol) {
                let (name, method) = self.parse_method()?;
                methods.insert(name, method);
            } else {
                return Ok(methods);
            }
        }
    }

    /// The variables and the methods of one side of a class.
    fn parse_members(&mut self) -> (result: Result<(Vec<String>, Methods), Error>)
        requires
            old(self).wf(),
        ensures
            result matches Ok(members) ==> members.1.wf(),
            final(self).follows(
                old(self),
                match result {
                    Ok(members) => Ok((strings_view(members.0@), members.1@)),
                    Err(error) => Err(error@),
                },
                grammar::members(old(self).input(), old(self).index()),
            ),
    {
        reveal(grammar::members);
        let variables = self.parse_locals()?;
        let methods = self.parse_methods()?;
        Ok((variables, methods))
    }

    /// The two sides of a class.
    fn parse_sides(&mut self) -> (result: Result<
        ((Vec<String>, Methods), (Vec<String>, Methods)),
        Error,
    >)
        requires
            old(self).wf(),
        ensures
            result matches Ok(sides) ==> sides.0.1.wf() && sides.1.1.wf(),
            final(self).follows(
                old(self),
                match result {
                    Ok(sides) => Ok(
                        (
                            (strings_view(sides.0.0@), sides.0.1@),
                            (strings_view(sides.1.0@), sides.1.1@),
                        ),
                    ),
                    Err(error) => Err(error@),
                },
                grammar::sides(old(self).input(), old(self).index()),
            ),
    {
        reveal(grammar::sides);
        let instance = self.parse_members()?;
        match self.accept(Symbol::Separator) {
            Ok(_) => {
                let own = self.parse_members()?;
                Ok((instance, own))
            },
            Err(_) => {
                let variables: Vec<String> = Vec::new();
                assert(strings_view(variables@) =~= Seq::<Seq<char>>::empty());
                Ok((instance, (variables, Methods::new())))
            },
        }
    }

    /// Reads a class.
    pub fn parse_class(&mut self) -> (result: Result<Class, Error>)
        requires
            old(self).wf(),
        ensures
            result matches Ok(class) ==> class.wf(),
            final(self).follows(
                old(self),
                class_view(result),
                grammar::class(old(self).input(), old(self).index()),
            ),
    {
        reveal(grammar::class);
        let name = lexeme(self.expect(Symbol::Identifier)?);
        self.expect(Symbol::Equal)?;
        let superclass = self.parse_superclass_name()?;
        self.expect(Symbol::NewTerm)?;
        let ((instance_variables, instance_methods), (class_variables, class_methods)) =
            self.parse_sides()?;
        self.expect(Symbol::EndTerm)?;
        Ok(
            Class {
                name,
                superclass,
                instance_methods,
                instance_variables,
                class_methods,
                class_variables,
            },
        )
    }
}

} // verus!
