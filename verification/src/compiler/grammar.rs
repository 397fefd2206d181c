//! What the parser reads from tokens: the grammar, as functions of the tokens
//! and of the place where a rule starts.

use crate::compiler::ast::{ClassView, DecimalView, ExpressionView, MethodView};
use crate::compiler::lexer::Error as LexerError;
use crate::compiler::lexical::{digit, token_stream, TokenStream};
use crate::compiler::token::{Symbol, TokenView};
use crate::util::peekable_buffer::Location;
use vstd::prelude::*;

verus! {

/// What an error of the parser stands for.
pub ghost enum ErrorView {
    ParseError { description: Seq<char>, filename: Seq<char>, line: usize, position: usize },
    MismatchError { expected: Seq<Symbol>, found: Symbol, location: Location },
    End,
}

/// The names of the symbols, with a comma and a space between them.
pub open spec fn names_list(symbols: Seq<Symbol>) -> Seq<char>
    decreases symbols.len(),
{
    if symbols.len() == 0 {
        Seq::empty()
    } else if symbols.len() == 1 {
        symbols[0].name()
    } else {
        names_list(symbols.drop_last()) + ", "@ + symbols.last().name()
    }
}

/// What is said of a token that is none of those expected.
pub open spec fn mismatch_description(expected: Seq<Symbol>, found: Symbol) -> Seq<char> {
    "Expected ["@ + names_list(expected) + "], found "@ + found.name()
}

/// What is said of a character that starts no token.
pub open spec fn unexpected_description(character: char) -> Seq<char> {
    "Unexpected character "@.push(character)
}

/// What is said of an integer literal that is too large.
pub open spec fn range_description(lexeme: Seq<char>) -> Seq<char> {
    "Integer out of range: "@ + lexeme
}

/// The number that a row of digits writes.
pub open spec fn decimal_value(digits: Seq<char>) -> nat
    decreases digits.len(),
{
    if digits.len() == 0 {
        0
    } else {
        decimal_value(digits.drop_last()) * 10 + (digits.last() as nat - '0' as nat) as nat
    }
}

/// Whether a text is made of digits alone.
pub open spec fn all_digits(text: Seq<char>) -> bool {
    forall|i: int| 0 <= i < text.len() ==> digit(#[trigger] text[i])
}

/// The value of an integer literal: that of its digits, where it is made of
/// digits and the value is not too large.
pub open spec fn integer_value(lexeme: Seq<char>) -> Option<i64> {
    if lexeme.len() > 0 && all_digits(lexeme) && decimal_value(lexeme) <= i64::MAX {
        Some(decimal_value(lexeme) as i64)
    } else {
        None
    }
}

/// The symbols of the operators of one character.
pub open spec fn is_binary_operator(symbol: Symbol) -> bool {
    symbol == Symbol::And || symbol == Symbol::At || symbol == Symbol::Comma || symbol
        == Symbol::Divide || symbol == Symbol::Equal || symbol == Symbol::Less || symbol
        == Symbol::Minus || symbol == Symbol::Modulus || symbol == Symbol::More || symbol
        == Symbol::Not || symbol == Symbol::Or || symbol == Symbol::Percent || symbol
        == Symbol::Plus || symbol == Symbol::Star
}

/// The character of an operator of one character, as a selector.
pub open spec fn binary_operator_text(symbol: Symbol) -> Seq<char> {
    match symbol {
        Symbol::And => "&"@,
        Symbol::At => "@"@,
        Symbol::Comma => ","@,
        Symbol::Divide => "/"@,
        Symbol::Equal => "="@,
        Symbol::Less => "<"@,
        Symbol::Minus => "-"@,
        Symbol::Modulus => "\\"@,
        Symbol::More => ">"@,
        Symbol::Not => "~"@,
        Symbol::Or => "|"@,
        Symbol::Percent => "%"@,
        Symbol::Plus => "+"@,
        Symbol::Star => "*"@,
        _ => Seq::empty(),
    }
}

/// The selector that a token is as a binary operator, if it is one.
pub open spec fn binary_selector(token: TokenView) -> Option<Seq<char>> {
    if token.symbol == Symbol::OperatorSequence {
        Some(token.lexeme())
    } else if is_binary_operator(token.symbol) {
        Some(binary_operator_text(token.symbol))
    } else {
        None
    }
}

/// The symbols of the operators of one character, in the order in which
/// errors name them.
pub open spec fn binary_operators() -> Seq<Symbol> {
    seq![
        Symbol::And,
        Symbol::At,
        Symbol::Comma,
        Symbol::Divide,
        Symbol::Equal,
        Symbol::Less,
        Symbol::Minus,
        Symbol::Modulus,
        Symbol::More,
        Symbol::Not,
        Symbol::Or,
        Symbol::Percent,
        Symbol::Plus,
        Symbol::Star,
    ]
}

/// The symbols that a method's pattern starts with.
pub open spec fn pattern_starts() -> Seq<Symbol> {
    seq![Symbol::Identifier, Symbol::Keyword, Symbol::OperatorSequence] + binary_operators()
}

/// The symbols that a binary message starts with.
pub open spec fn operator_starts() -> Seq<Symbol> {
    seq![Symbol::OperatorSequence] + binary_operators()
}

/// The symbols that a primary expression starts with.
pub open spec fn primary_starts() -> Seq<Symbol> {
    seq![
        Symbol::Identifier,
        Symbol::String,
        Symbol::Integer,
        Symbol::Double,
        Symbol::Pound,
        Symbol::Minus,
        Symbol::NewBlock,
        Symbol::NewTerm,
    ]
}

/// The symbols that can follow the pound sign of a symbol literal.
pub open spec fn symbol_starts() -> Seq<Symbol> {
    seq![
        Symbol::Identifier,
        Symbol::String,
        Symbol::Keyword,
        Symbol::KeywordSequence,
        Symbol::OperatorSequence,
    ] + binary_operators()
}

/// The symbols of the numbers.
pub open spec fn number_starts() -> Seq<Symbol> {
    seq![Symbol::Integer, Symbol::Double]
}

/// Whether a token of this kind starts the pattern of a method.
pub open spec fn starts_pattern(symbol: Symbol) -> bool {
    symbol == Symbol::Identifier || symbol == Symbol::Keyword || symbol
        == Symbol::OperatorSequence || is_binary_operator(symbol)
}

/// A text, or the empty text where there is none.
pub open spec fn text_of(text: Option<Seq<char>>) -> Seq<char> {
    match text {
        Some(text) => text,
        None => Seq::empty(),
    }
}

/// What the parser reads: the tokens of a text, with the name of the file
/// that errors are to name.
pub ghost struct Input {
    pub filename: Seq<char>,
    pub tokens: TokenStream,
}

/// The input that the lexer makes of a text.
pub open spec fn input_from(chars: Seq<char>, filename: Seq<char>) -> Input {
    Input { filename, tokens: token_stream(chars) }
}

/// What a rule gives when it starts at some token: its value and the number
/// of tokens that it took, or the error that stopped it.
pub type Parsed<T> = Result<(T, nat), ErrorView>;

/// What a rule says where `taken` tokens were taken before it started.
pub open spec fn shifted<V>(rule: Parsed<V>, taken: nat) -> Parsed<V> {
    match rule {
        Ok((value, count)) => Ok((value, taken + count)),
        Err(error) => Err(error),
    }
}

/// What a rule for a list says where the values in `found` were found and
/// `taken` tokens were taken before it started.
pub open spec fn extended<V>(found: Seq<V>, taken: nat, rule: Parsed<Seq<V>>) -> Parsed<Seq<V>> {
    match rule {
        Ok((values, count)) => Ok((found + values, taken + count)),
        Err(error) => Err(error),
    }
}

/// What a rule for a selector with its list says where the start of the
/// selector and of the list were found and `taken` tokens were taken before it
/// started.
pub open spec fn joined<V>(
    selector: Seq<char>,
    found: Seq<V>,
    taken: nat,
    rule: Parsed<(Seq<char>, Seq<V>)>,
) -> Parsed<(Seq<char>, Seq<V>)> {
    match rule {
        Ok(((rest, values), count)) => Ok(((selector + rest, found + values), taken + count)),
        Err(error) => Err(error),
    }
}

impl Input {
    /// The number of tokens.
    pub open spec fn len(self) -> nat {
        self.tokens.items.len()
    }

    /// The number of tokens from `at` on.
    pub open spec fn left(self, at: nat) -> nat {
        if at <= self.len() {
            (self.len() - at) as nat
        } else {
            0
        }
    }

    /// An error at a place in the file.
    pub open spec fn error_at(self, description: Seq<char>, location: Location) -> ErrorView {
        ErrorView::ParseError {
            description,
            filename: self.filename,
            line: location.0,
            position: location.1,
        }
    }

    /// The error of a rule that needs a token where none is left: the end
    /// of the input, or the character at which the lexer stopped.
    pub open spec fn ending(self) -> ErrorView {
        match self.tokens.end {
            LexerError::End => ErrorView::End,
            LexerError::Unexpected { character, location } => self.error_at(
                unexpected_description(character),
                location,
            ),
        }
    }

    /// The token at `at`, where there is one.
    pub open spec fn token(self, at: nat) -> TokenView {
        self.tokens.items[at as int].token
    }

    /// The token at `at`, or why there is none.
    pub open spec fn peek(self, at: nat) -> Result<TokenView, ErrorView> {
        if at < self.len() {
            Ok(self.token(at))
        } else {
            Err(self.ending())
        }
    }

    /// The place of the token at `at`.
    pub open spec fn location(self, at: nat) -> Location {
        self.tokens.items[at as int].location
    }

    /// The error of a rule that needs one of the tokens expected and finds
    /// another at `at`, or finds none.
    pub open spec fn refusal(self, at: nat, expected: Seq<Symbol>) -> ErrorView {
        if at < self.len() {
            self.error_at(mismatch_description(expected, self.token(at).symbol), self.location(at))
        } else {
            self.ending()
        }
    }

    /// The token at `at`, if it is one of those expected.
    pub open spec fn accept_one_of(self, at: nat, expected: Seq<Symbol>) -> Result<
        TokenView,
        ErrorView,
    > {
        if at < self.len() {
            if expected.contains(self.token(at).symbol) {
                Ok(self.token(at))
            } else {
                Err(
                    ErrorView::MismatchError {
                        expected,
                        found: self.token(at).symbol,
                        location: self.location(at),
                    },
                )
            }
        } else {
            Err(self.ending())
        }
    }

    /// The token at `at`, if it is of the kind expected.
    pub open spec fn accept(self, at: nat, expected: Symbol) -> Result<TokenView, ErrorView> {
        if at < self.len() {
            if self.token(at).symbol == expected {
                Ok(self.token(at))
            } else {
                Err(
                    ErrorView::MismatchError {
                        expected: seq![expected],
                        found: self.token(at).symbol,
                        location: self.location(at),
                    },
                )
            }
        } else {
            Err(self.ending())
        }
    }

    /// The text of the token at `at`, which must be one of those expected.
    pub open spec fn expect_one_of(self, at: nat, expected: Seq<Symbol>) -> Result<
        Option<Seq<char>>,
        ErrorView,
    > {
        if at < self.len() && expected.contains(self.token(at).symbol) {
            Ok(self.token(at).text)
        } else {
            Err(self.refusal(at, expected))
        }
    }

    /// The text of the token at `at`, which must be of the kind expected.
    pub open spec fn expect(self, at: nat, expected: Symbol) -> Result<
        Option<Seq<char>>,
        ErrorView,
    > {
        if self.holds(at, expected) {
            Ok(self.token(at).text)
        } else {
            Err(self.refusal(at, seq![expected]))
        }
    }

    /// Whether the token at `at` is of this kind.
    pub open spec fn holds(self, at: nat, symbol: Symbol) -> bool {
        at < self.len() && self.token(at).symbol == symbol
    }

    /// Whether the lexer stopped at a character before it gave a token at `at`.
    pub open spec fn broken(self, at: nat) -> bool {
        at >= self.len() && self.tokens.end is Unexpected
    }
}

/// The name of the class above: the identifier at `at`, or `Object` where
/// another token stands there.
pub open spec fn superclass_name(input: Input, at: nat) -> Parsed<Seq<char>> {
    match input.accept(at, Symbol::Identifier) {
        Ok(token) => Ok((token.lexeme(), 1)),
        Err(ErrorView::MismatchError { .. }) => Ok(("Object"@, 0)),
        Err(error) => Err(error),
    }
}

/// The identifiers that follow each other from `at` on.
pub open spec fn identifiers(input: Input, at: nat) -> Seq<Seq<char>>
    decreases input.left(at),
{
    if input.holds(at, Symbol::Identifier) {
        seq![input.token(at).lexeme()] + identifiers(input, at + 1)
    } else {
        Seq::empty()
    }
}

/// Local variables: identifiers between two bars, or nothing.
pub open spec fn locals(input: Input, at: nat) -> Parsed<Seq<Seq<char>>> {
    if input.holds(at, Symbol::Or) {
        let names = identifiers(input, at + 1);
        match input.expect(at + 1 + names.len(), Symbol::Or) {
            Ok(_) => Ok((names, names.len() + 2)),
            Err(error) => Err(error),
        }
    } else if input.broken(at) {
        Err(input.ending())
    } else {
        Ok((Seq::empty(), 0))
    }
}

/// The parameters of a block, each an identifier behind a colon.
pub open spec fn colon_names(input: Input, at: nat) -> Parsed<Seq<Seq<char>>>
    decreases input.left(at),
{
    if input.holds(at, Symbol::Colon) {
        match input.expect(at + 1, Symbol::Identifier) {
            Err(error) => Err(error),
            Ok(name) => match colon_names(input, at + 2) {
                Err(error) => Err(error),
                Ok((names, count)) => Ok((seq![text_of(name)] + names, count + 2)),
            },
        }
    } else if input.broken(at) {
        Err(input.ending())
    } else {
        Ok((Seq::empty(), 0))
    }
}

/// The parameters of a block, with the bar that ends them where there are any.
pub open spec fn block_parameters(input: Input, at: nat) -> Parsed<Seq<Seq<char>>> {
    match colon_names(input, at) {
        Err(error) => Err(error),
        Ok((names, count)) => if names.len() > 0 {
            match input.expect(at + count, Symbol::Or) {
                Ok(_) => Ok((names, count + 1)),
                Err(error) => Err(error),
            }
        } else {
            Ok((names, count))
        },
    }
}

/// The pattern of a unary method: its name.
pub open spec fn unary_pattern(input: Input, at: nat) -> Parsed<(Seq<char>, Seq<Seq<char>>)> {
    match input.expect(at, Symbol::Identifier) {
        Err(error) => Err(error),
        Ok(name) => Ok(((text_of(name), Seq::empty()), 1)),
    }
}

/// The keywords of a pattern after its first, each with its parameter.
pub open spec fn keyword_pattern_rest(input: Input, at: nat) -> Parsed<
    (Seq<char>, Seq<Seq<char>>),
>
    decreases input.left(at),
{
    match input.accept(at, Symbol::Keyword) {
        Ok(keyword) => match input.expect(at + 1, Symbol::Identifier) {
            Err(error) => Err(error),
            Ok(parameter) => match keyword_pattern_rest(input, at + 2) {
                Err(error) => Err(error),
                Ok(((selector, parameters), count)) => Ok(
                    (
                        (keyword.lexeme() + selector, seq![text_of(parameter)] + parameters),
                        count + 2,
                    ),
                ),
            },
        },
        Err(ErrorView::MismatchError { .. }) => Ok(((Seq::empty(), Seq::empty()), 0)),
        Err(error) => Err(error),
    }
}

/// The pattern of a keyword method: keywords, each with its parameter. The
/// selector is the keywords put together.
pub open spec fn keyword_pattern(input: Input, at: nat) -> Parsed<(Seq<char>, Seq<Seq<char>>)> {
    match input.expect(at, Symbol::Keyword) {
        Err(error) => Err(error),
        Ok(keyword) => match input.expect(at + 1, Symbol::Identifier) {
            Err(error) => Err(error),
            Ok(parameter) => match keyword_pattern_rest(input, at + 2) {
                Err(error) => Err(error),
                Ok(((selector, parameters), count)) => Ok(
                    (
                        (text_of(keyword) + selector, seq![text_of(parameter)] + parameters),
                        count + 2,
                    ),
                ),
            },
        },
    }
}

/// The pattern of a binary method: an operator and its parameter.
pub open spec fn binary_pattern(input: Input, at: nat) -> Parsed<(Seq<char>, Seq<Seq<char>>)> {
    if at < input.len() && binary_selector(input.token(at)) is Some {
        match input.expect(at + 1, Symbol::Identifier) {
            Err(error) => Err(error),
            Ok(parameter) => Ok(
                ((binary_selector(input.token(at))->0, seq![text_of(parameter)]), 2),
            ),
        }
    } else {
        Err(input.refusal(at, operator_starts()))
    }
}

/// The pattern of a method: its selector and the names of its parameters.
pub open spec fn pattern(input: Input, at: nat) -> Parsed<(Seq<char>, Seq<Seq<char>>)> {
    if input.holds(at, Symbol::Identifier) {
        unary_pattern(input, at)
    } else if input.holds(at, Symbol::Keyword) {
        keyword_pattern(input, at)
    } else if at < input.len() && binary_selector(input.token(at)) is Some {
        binary_pattern(input, at)
    } else {
        Err(input.refusal(at, pattern_starts()))
    }
}

/// What an identifier is as an expression.
pub open spec fn variable(name: Seq<char>) -> ExpressionView {
    if name == "nil"@ {
        ExpressionView::LiteralNil
    } else if name == "true"@ {
        ExpressionView::LiteralBoolean(true)
    } else if name == "false"@ {
        ExpressionView::LiteralBoolean(false)
    } else {
        ExpressionView::Variable(name)
    }
}

/// An identifier as an expression.
pub open spec fn variable_expression(input: Input, at: nat) -> Parsed<ExpressionView> {
    match input.expect(at, Symbol::Identifier) {
        Err(error) => Err(error),
        Ok(name) => Ok((variable(text_of(name)), 1)),
    }
}

/// A string as an expression.
pub open spec fn string_expression(input: Input, at: nat) -> Parsed<ExpressionView> {
    match input.expect(at, Symbol::String) {
        Err(error) => Err(error),
        Ok(text) => Ok((ExpressionView::LiteralString(text_of(text)), 1)),
    }
}

/// A number with a minus sign before it.
pub open spec fn negative_number(input: Input, at: nat) -> Parsed<ExpressionView> {
    match input.expect(at, Symbol::Minus) {
        Err(error) => Err(error),
        Ok(_) => match number(input, at + 1, true) {
            Err(error) => Err(error),
            Ok((value, count)) => Ok((value, count + 1)),
        },
    }
}

/// A number, which is negative where a minus sign stood before it.
pub open spec fn number(input: Input, at: nat, negative: bool) -> Parsed<ExpressionView> {
    if input.holds(at, Symbol::Integer) {
        match integer_value(input.token(at).lexeme()) {
            Some(value) => Ok(
                (
                    ExpressionView::LiteralInteger(
                        if negative {
                            (-value) as i64
                        } else {
                            value
                        },
                    ),
                    1,
                ),
            ),
            None => Err(
                input.error_at(range_description(input.token(at).lexeme()), input.location(at)),
            ),
        }
    } else if input.holds(at, Symbol::Double) {
        Ok(
            (
                ExpressionView::LiteralDouble(
                    DecimalView { negative, lexeme: input.token(at).lexeme() },
                ),
                1,
            ),
        )
    } else {
        Err(input.refusal(at, number_starts()))
    }
}

/// The name that a token is behind the pound sign of a symbol literal, if it
/// can stand there.
pub open spec fn symbol_name(token: TokenView) -> Option<Seq<char>> {
    if token.symbol == Symbol::Identifier || token.symbol == Symbol::String || token.symbol
        == Symbol::Keyword || token.symbol == Symbol::KeywordSequence || token.symbol
        == Symbol::OperatorSequence {
        Some(token.lexeme())
    } else if is_binary_operator(token.symbol) {
        Some(binary_operator_text(token.symbol))
    } else {
        None
    }
}

/// A symbol literal: a pound sign and a name, a string or an operator.
pub open spec fn symbol_literal(input: Input, at: nat) -> Parsed<ExpressionView> {
    match input.expect(at, Symbol::Pound) {
        Err(error) => Err(error),
        Ok(_) => if at + 1 < input.len() && symbol_name(input.token(at + 1)) is Some {
            Ok((ExpressionView::LiteralSymbol(symbol_name(input.token(at + 1))->0), 2))
        } else {
            Err(input.refusal(at + 1, symbol_starts()))
        },
    }
}

/// The unary messages that follow each other from `at` on, each sent to what
/// stands before it.
pub open spec fn unary_messages(input: Input, at: nat, receiver: ExpressionView) -> Parsed<
    ExpressionView,
>
    decreases input.left(at),
{
    if input.holds(at, Symbol::Identifier) {
        match unary_messages(
            input,
            at + 1,
            ExpressionView::UnaryMessage {
                message: input.token(at).lexeme(),
                receiver: Box::new(receiver),
            },
        ) {
            Err(error) => Err(error),
            Ok((value, count)) => Ok((value, count + 1)),
        }
    } else if input.broken(at) {
        Err(input.ending())
    } else {
        Ok((receiver, 0))
    }
}

/// The statements of a block or a method, with periods between them and
/// perhaps one behind the last. They end before a closing bracket, at the end
/// of the input, or where no period follows a statement.
#[verifier::opaque]
pub open spec fn block_body(input: Input, at: nat) -> Parsed<Seq<ExpressionView>>
    decreases input.left(at), 6nat,
{
    if input.holds(at, Symbol::EndTerm) || input.holds(at, Symbol::EndBlock) {
        Ok((Seq::empty(), 0))
    } else if at >= input.len() {
        if input.broken(at) {
            Err(input.ending())
        } else {
            Ok((Seq::empty(), 0))
        }
    } else {
        match statement(input, at) {
            Err(error) => Err(error),
            Ok((first, count)) => if input.holds(at + count, Symbol::Period) {
                match block_body(input, at + count + 1) {
                    Err(error) => Err(error),
                    Ok((others, more)) => Ok((seq![first] + others, count + 1 + more)),
                }
            } else if input.broken(at + count) {
                Err(input.ending())
            } else {
                Ok((seq![first], count))
            },
        }
    }
}

/// A statement: an expression, or one behind a caret, whose value the
/// method returns.
#[verifier::opaque]
pub open spec fn statement(input: Input, at: nat) -> Parsed<ExpressionView>
    decreases input.left(at), 5nat,
{
    if input.holds(at, Symbol::Exit) {
        match expression(input, at + 1) {
            Err(error) => Err(error),
            Ok((value, count)) => Ok((ExpressionView::Return(Box::new(value)), count + 1)),
        }
    } else {
        expression(input, at)
    }
}

/// The variables of an assignment, each with the assignment sign behind it.
pub open spec fn assignments(input: Input, at: nat) -> Parsed<Seq<Seq<char>>>
    decreases input.left(at),
{
    if input.holds(at + 1, Symbol::Assign) {
        match input.expect(at, Symbol::Identifier) {
            Err(error) => Err(error),
            Ok(name) => match assignments(input, at + 2) {
                Err(error) => Err(error),
                Ok((names, count)) => Ok((seq![text_of(name)] + names, count + 2)),
            },
        }
    } else if input.broken(at + 1) {
        Err(input.ending())
    } else {
        Ok((Seq::empty(), 0))
    }
}

/// An expression: an assignment to one variable or to several, or a primary
/// expression with the messages sent to it.
#[verifier::opaque]
pub open spec fn expression(input: Input, at: nat) -> Parsed<ExpressionView>
    decreases input.left(at), 4nat,
{
    if input.holds(at + 1, Symbol::Assign) {
        match input.expect(at, Symbol::Identifier) {
            Err(error) => Err(error),
            Ok(name) => match assignments(input, at + 2) {
                Err(error) => Err(error),
                Ok((names, count)) => match expression(input, at + 2 + count) {
                    Err(error) => Err(error),
                    Ok((value, more)) => Ok(
                        (
                            ExpressionView::Assignment {
                                variables: seq![text_of(name)] + names,
                                value: Box::new(value),
                            },
                            2 + count + more,
                        ),
                    ),
                },
            },
        }
    } else if input.broken(at + 1) {
        Err(input.ending())
    } else {
        match primary(input, at) {
            Err(error) => Err(error),
            Ok((receiver, count)) => match messages(input, at + count, receiver) {
                Err(error) => Err(error),
                Ok((value, more)) => Ok((value, count + more)),
            },
        }
    }
}

/// The messages sent to a receiver: unary messages first, then binary
/// messages, from left to right, then one keyword message.
#[verifier::opaque]
pub open spec fn messages(input: Input, at: nat, receiver: ExpressionView) -> Parsed<
    ExpressionView,
>
    decreases input.left(at), 3nat,
{
    match unary_messages(input, at, receiver) {
        Err(error) => Err(error),
        Ok((first, count)) => match binary_messages(input, at + count, first) {
            Err(error) => Err(error),
            Ok((second, more)) => if input.holds(at + count + more, Symbol::Keyword) {
                match keyword_message(input, at + count + more, second) {
                    Err(error) => Err(error),
                    Ok((value, last)) => Ok((value, count + more + last)),
                }
            } else if input.broken(at + count + more) {
                Err(input.ending())
            } else {
                Ok((second, count + more))
            },
        },
    }
}

/// The binary messages that follow each other from `at` on, each sent to
/// what stands before it.
#[verifier::opaque]
pub open spec fn binary_messages(input: Input, at: nat, left: ExpressionView) -> Parsed<
    ExpressionView,
>
    decreases input.left(at), 0nat,
{
    if at < input.len() && binary_selector(input.token(at)) is Some {
        match operand(input, at + 1) {
            Err(error) => Err(error),
            Ok((right, count)) => match binary_messages(
                input,
                at + 1 + count,
                ExpressionView::BinaryMessage {
                    message: binary_selector(input.token(at))->0,
                    left: Box::new(left),
                    right: Box::new(right),
                },
            ) {
                Err(error) => Err(error),
                Ok((value, more)) => Ok((value, 1 + count + more)),
            },
        }
    } else if input.broken(at) {
        Err(input.ending())
    } else {
        Ok((left, 0))
    }
}

/// The keywords of a message from `at` on, each with its argument: the
/// selector, which is the keywords put together, and the arguments.
#[verifier::opaque]
pub open spec fn keyword_parts(input: Input, at: nat) -> Parsed<
    (Seq<char>, Seq<ExpressionView>),
>
    decreases input.left(at), 0nat,
{
    if input.holds(at, Symbol::Keyword) {
        match formula(input, at + 1) {
            Err(error) => Err(error),
            Ok((argument, count)) => match keyword_parts(input, at + 1 + count) {
                Err(error) => Err(error),
                Ok(((selector, arguments), more)) => Ok(
                    (
                        (
                            input.token(at).lexeme() + selector,
                            seq![argument] + arguments,
                        ),
                        1 + count + more,
                    ),
                ),
            },
        }
    } else if input.broken(at) {
        Err(input.ending())
    } else {
        Ok(((Seq::empty(), Seq::empty()), 0))
    }
}

/// A keyword message to a receiver.
#[verifier::opaque]
pub open spec fn keyword_message(input: Input, at: nat, receiver: ExpressionView) -> Parsed<
    ExpressionView,
>
    decreases input.left(at), 1nat,
{
    match keyword_parts(input, at) {
        Err(error) => Err(error),
        Ok(((selector, arguments), count)) => Ok(
            (
                ExpressionView::KeywordMessage {
                    message: selector,
                    receiver: Box::new(receiver),
                    parameters: arguments,
                },
                count,
            ),
        ),
    }
}

/// An argument of a keyword message: an operand with the binary messages
/// sent to it.
#[verifier::opaque]
pub open spec fn formula(input: Input, at: nat) -> Parsed<ExpressionView>
    decreases input.left(at), 3nat,
{
    match operand(input, at) {
        Err(error) => Err(error),
        Ok((first, count)) => match binary_messages(input, at + count, first) {
            Err(error) => Err(error),
            Ok((value, more)) => Ok((value, count + more)),
        },
    }
}

/// An argument of a binary message: a primary expression with the unary
/// messages sent to it.
#[verifier::opaque]
pub open spec fn operand(input: Input, at: nat) -> Parsed<ExpressionView>
    decreases input.left(at), 2nat,
{
    match primary(input, at) {
        Err(error) => Err(error),
        Ok((first, count)) => match unary_messages(input, at + count, first) {
            Err(error) => Err(error),
            Ok((value, more)) => Ok((value, count + more)),
        },
    }
}

/// A primary expression: a variable, a literal, a block, or an expression
/// in round brackets.
#[verifier::opaque]
pub open spec fn primary(input: Input, at: nat) -> Parsed<ExpressionView>
    decreases input.left(at), 1nat,
{
    if input.holds(at, Symbol::Identifier) {
        variable_expression(input, at)
    } else if input.holds(at, Symbol::String) {
        string_expression(input, at)
    } else if input.holds(at, Symbol::Integer) || input.holds(at, Symbol::Double) {
        number(input, at, false)
    } else if input.holds(at, Symbol::Pound) {
        symbol_literal(input, at)
    } else if input.holds(at, Symbol::Minus) {
        negative_number(input, at)
    } else if input.holds(at, Symbol::NewBlock) {
        nested_block(input, at)
    } else if input.holds(at, Symbol::NewTerm) {
        nested_term(input, at)
    } else {
        Err(input.refusal(at, primary_starts()))
    }
}

/// A block: parameters, local variables and statements in square brackets.
#[verifier::opaque]
pub open spec fn nested_block(input: Input, at: nat) -> Parsed<ExpressionView>
    decreases input.left(at), 0nat,
{
    match input.expect(at, Symbol::NewBlock) {
        Err(error) => Err(error),
        Ok(_) => match block_parameters(input, at + 1) {
            Err(error) => Err(error),
            Ok((parameters, first)) => match locals(input, at + 1 + first) {
                Err(error) => Err(error),
                Ok((variables, second)) => match block_body(input, at + 1 + first + second) {
                    Err(error) => Err(error),
                    Ok((body, third)) => match input.expect(
                        at + 1 + first + second + third,
                        Symbol::EndBlock,
                    ) {
                        Err(error) => Err(error),
                        Ok(_) => Ok(
                            (
                                ExpressionView::Block { parameters, locals: variables, body },
                                first + second + third + 2,
                            ),
                        ),
                    },
                },
            },
        },
    }
}

/// An expression in round brackets.
#[verifier::opaque]
pub open spec fn nested_term(input: Input, at: nat) -> Parsed<ExpressionView>
    decreases input.left(at), 0nat,
{
    match input.expect(at, Symbol::NewTerm) {
        Err(error) => Err(error),
        Ok(_) => match expression(input, at + 1) {
            Err(error) => Err(error),
            Ok((value, count)) => match input.expect(at + 1 + count, Symbol::EndTerm) {
                Err(error) => Err(error),
                Ok(_) => Ok((value, count + 2)),
            },
        },
    }
}

/// One binary message to a receiver: an operator and its operand.
#[verifier::opaque]
pub open spec fn binary_message(input: Input, at: nat, left: ExpressionView) -> Parsed<
    ExpressionView,
> {
    if at < input.len() && binary_selector(input.token(at)) is Some {
        match operand(input, at + 1) {
            Err(error) => Err(error),
            Ok((right, count)) => Ok(
                (
                    ExpressionView::BinaryMessage {
                        message: binary_selector(input.token(at))->0,
                        left: Box::new(left),
                        right: Box::new(right),
                    },
                    count + 1,
                ),
            ),
        }
    } else {
        Err(input.refusal(at, operator_starts()))
    }
}

/// One unary message to a receiver.
pub open spec fn unary_message(input: Input, at: nat, receiver: ExpressionView) -> Parsed<
    ExpressionView,
> {
    match input.expect(at, Symbol::Identifier) {
        Err(error) => Err(error),
        Ok(name) => Ok(
            (
                ExpressionView::UnaryMessage {
                    message: text_of(name),
                    receiver: Box::new(receiver),
                },
                1,
            ),
        ),
    }
}

/// What stands behind the equals sign of a method: the word that marks a
/// primitive, or local variables and statements in round brackets.
#[verifier::opaque]
pub open spec fn method_body(
    input: Input,
    at: nat,
    name: Seq<char>,
    parameters: Seq<Seq<char>>,
) -> Parsed<MethodView> {
    if input.holds(at, Symbol::Primitive) {
        Ok((MethodView::Primitive { name, parameters }, 1))
    } else {
        match input.expect(at, Symbol::NewTerm) {
            Err(error) => Err(error),
            Ok(_) => match locals(input, at + 1) {
                Err(error) => Err(error),
                Ok((variables, first)) => match block_body(input, at + 1 + first) {
                    Err(error) => Err(error),
                    Ok((body, second)) => match input.expect(
                        at + 1 + first + second,
                        Symbol::EndTerm,
                    ) {
                        Err(error) => Err(error),
                        Ok(_) => Ok(
                            (
                                MethodView::Native { name, parameters, locals: variables, body },
                                first + second + 2,
                            ),
                        ),
                    },
                },
            },
        }
    }
}

/// A method: its pattern, an equals sign, and what stands behind it. It is
/// given with its selector.
#[verifier::opaque]
pub open spec fn method(input: Input, at: nat) -> Parsed<(Seq<char>, MethodView)> {
    match pattern(input, at) {
        Err(error) => Err(error),
        Ok(((name, parameters), first)) => match input.expect(at + first, Symbol::Equal) {
            Err(error) => Err(error),
            Ok(_) => match method_body(input, at + first + 1, name, parameters) {
                Err(error) => Err(error),
                Ok((method, second)) => Ok(((name, method), first + 1 + second)),
            },
        },
    }
}

/// A method takes at least one token.
pub proof fn lemma_method_advances(input: Input, at: nat)
    ensures
        method(input, at) matches Ok((_, count)) ==> count >= 1 && at < input.len(),
{
    reveal(method);
}

/// The methods that follow each other from `at` on, added to those in
/// `found`, each under its selector. Of two methods with one selector the
/// later one stays.
#[verifier::opaque]
pub open spec fn methods(input: Input, at: nat, found: Map<Seq<char>, MethodView>) -> Parsed<
    Map<Seq<char>, MethodView>,
>
    decreases input.left(at),
{
    match input.peek(at) {
        Err(error) => Err(error),
        Ok(token) => if starts_pattern(token.symbol) {
            match method(input, at) {
                Err(error) => Err(error),
                Ok(((name, method), count)) => {
                    proof {
                        lemma_method_advances(input, at);
                    }
                    match methods(input, at + count, found.insert(name, method)) {
                        Err(error) => Err(error),
                        Ok((all, more)) => Ok((all, count + more)),
                    }
                },
            }
        } else {
            Ok((found, 0))
        },
    }
}

/// The variables and the methods of one side of a class.
#[verifier::opaque]
pub open spec fn members(input: Input, at: nat) -> Parsed<
    (Seq<Seq<char>>, Map<Seq<char>, MethodView>),
> {
    match locals(input, at) {
        Err(error) => Err(error),
        Ok((variables, first)) => match methods(input, at + first, Map::empty()) {
            Err(error) => Err(error),
            Ok((found, second)) => Ok(((variables, found), first + second)),
        },
    }
}

/// The two sides of a class: the variables and the methods of its instances
/// and, behind a separator, those of the class itself.
#[verifier::opaque]
pub open spec fn sides(input: Input, at: nat) -> Parsed<
    (
        (Seq<Seq<char>>, Map<Seq<char>, MethodView>),
        (Seq<Seq<char>>, Map<Seq<char>, MethodView>),
    ),
> {
    match members(input, at) {
        Err(error) => Err(error),
        Ok((instance, first)) => if input.holds(at + first, Symbol::Separator) {
            match members(input, at + first + 1) {
                Err(error) => Err(error),
                Ok((own, second)) => Ok(((instance, own), first + 1 + second)),
            }
        } else {
            Ok(((instance, (Seq::empty(), Map::empty())), first))
        },
    }
}

/// A class: its name, an equals sign, perhaps the name of the class above
/// it, and its two sides in round brackets.
#[verifier::opaque]
pub open spec fn class(input: Input, at: nat) -> Parsed<ClassView> {
    match input.expect(at, Symbol::Identifier) {
        Err(error) => Err(error),
        Ok(name) => match input.expect(at + 1, Symbol::Equal) {
            Err(error) => Err(error),
            Ok(_) => match superclass_name(input, at + 2) {
                Err(error) => Err(error),
                Ok((superclass, first)) => match input.expect(at + 2 + first, Symbol::NewTerm) {
                    Err(error) => Err(error),
                    Ok(_) => match sides(input, at + 3 + first) {
                        Err(error) => Err(error),
                        Ok(((instance, own), second)) => match input.expect(
                            at + 3 + first + second,
                            Symbol::EndTerm,
                        ) {
                            Err(error) => Err(error),
                            Ok(_) => Ok(
                                (
                                    ClassView {
                                        name: text_of(name),
                                        superclass,
                                        instance_methods: instance.1,
                                        instance_variables: instance.0,
                                        class_methods: own.1,
                                        class_variables: own.0,
                                    },
                                    first + second + 4,
                                ),
                            ),
                        },
                    },
                },
            },
        },
    }
}

/// An expression that starts with no assignment is a primary expression
/// with the messages sent to it.
pub proof fn lemma_expression_step(input: Input, at: nat)
    ensures
        expression(input, at) == if input.holds(at + 1, Symbol::Assign) {
            match input.expect(at, Symbol::Identifier) {
                Err(error) => Err(error),
                Ok(name) => match assignments(input, at + 2) {
                    Err(error) => Err(error),
                    Ok((names, count)) => match expression(input, at + 2 + count) {
                        Err(error) => Err(error),
                        Ok((value, more)) => Ok(
                            (
                                ExpressionView::Assignment {
                                    variables: seq![text_of(name)] + names,
                                    value: Box::new(value),
                                },
                                2 + count + more,
                            ),
                        ),
                    },
                },
            }
        } else if input.broken(at + 1) {
            Err(input.ending())
        } else {
            match primary(input, at) {
                Err(error) => Err(error),
                Ok((receiver, count)) => shifted(messages(input, at + count, receiver), count),
            }
        },
{
    reveal(expression);
    reveal(primary);
    reveal(messages);
}

/// The messages sent to a receiver are unary messages, then binary messages,
/// then a keyword message where a keyword stands.
pub proof fn lemma_messages_step(input: Input, at: nat, receiver: ExpressionView)
    ensures
        messages(input, at, receiver) == match unary_messages(input, at, receiver) {
            Err(error) => Err(error),
            Ok((first, count)) => match binary_messages(input, at + count, first) {
                Err(error) => Err(error),
                Ok((second, more)) => if input.holds(at + count + more, Symbol::Keyword) {
                    shifted(keyword_message(input, at + count + more, second), count + more)
                } else if input.broken(at + count + more) {
                    Err(input.ending())
                } else {
                    Ok((second, count + more))
                },
            },
        },
{
    reveal(messages);
    reveal(binary_messages);
    reveal(keyword_message);
}

/// A primary expression is what the kind of its first token says.
pub proof fn lemma_primary_step(input: Input, at: nat)
    ensures
        primary(input, at) == if input.holds(at, Symbol::Identifier) {
            variable_expression(input, at)
        } else if input.holds(at, Symbol::String) {
            string_expression(input, at)
        } else if input.holds(at, Symbol::Integer) || input.holds(at, Symbol::Double) {
            number(input, at, false)
        } else if input.holds(at, Symbol::Pound) {
            symbol_literal(input, at)
        } else if input.holds(at, Symbol::Minus) {
            negative_number(input, at)
        } else if input.holds(at, Symbol::NewBlock) {
            nested_block(input, at)
        } else if input.holds(at, Symbol::NewTerm) {
            nested_term(input, at)
        } else {
            Err(input.refusal(at, primary_starts()))
        },
{
    reveal(primary);
    reveal(nested_block);
    reveal(nested_term);
}

/// An expression in round brackets is the expression between them.
pub proof fn lemma_nested_term_step(input: Input, at: nat)
    ensures
        nested_term(input, at) == match input.expect(at, Symbol::NewTerm) {
            Err(error) => Err(error),
            Ok(_) => match expression(input, at + 1) {
                Err(error) => Err(error),
                Ok((value, count)) => match input.expect(at + 1 + count, Symbol::EndTerm) {
                    Err(error) => Err(error),
                    Ok(_) => Ok((value, count + 2)),
                },
            },
        },
{
    reveal(nested_term);
    reveal(expression);
}

/// A block is its parameters, its local variables and its statements
/// between square brackets.
pub proof fn lemma_nested_block_step(input: Input, at: nat)
    ensures
        nested_block(input, at) == match input.expect(at, Symbol::NewBlock) {
            Err(error) => Err(error),
            Ok(_) => match block_parameters(input, at + 1) {
                Err(error) => Err(error),
                Ok((parameters, first)) => match locals(input, at + 1 + first) {
                    Err(error) => Err(error),
                    Ok((variables, second)) => match block_body(input, at + 1 + first + second) {
                        Err(error) => Err(error),
                        Ok((body, third)) => match input.expect(
                            at + 1 + first + second + third,
                            Symbol::EndBlock,
                        ) {
                            Err(error) => Err(error),
                            Ok(_) => Ok(
                                (
                                    ExpressionView::Block { parameters, locals: variables, body },
                                    first + second + third + 2,
                                ),
                            ),
                        },
                    },
                },
            },
        },
{
    reveal(nested_block);
    reveal(block_body);
}

/// An argument of a binary message is a primary expression with the unary
/// messages sent to it.
pub proof fn lemma_operand_step(input: Input, at: nat)
    ensures
        operand(input, at) == match primary(input, at) {
            Err(error) => Err(error),
            Ok((first, count)) => shifted(unary_messages(input, at + count, first), count),
        },
{
    reveal(operand);
    reveal(primary);
}

/// An argument of a keyword is an argument of a binary message with the
/// binary messages sent to it.
pub proof fn lemma_formula_step(input: Input, at: nat)
    ensures
        formula(input, at) == match operand(input, at) {
            Err(error) => Err(error),
            Ok((first, count)) => shifted(binary_messages(input, at + count, first), count),
        },
{
    reveal(formula);
    reveal(operand);
    reveal(binary_messages);
}

/// A statement is an expression, or one behind a caret that is returned.
pub proof fn lemma_statement_step(input: Input, at: nat)
    ensures
        statement(input, at) == if input.holds(at, Symbol::Exit) {
            match expression(input, at + 1) {
                Err(error) => Err(error),
                Ok((value, count)) => Ok((ExpressionView::Return(Box::new(value)), count + 1)),
            }
        } else {
            expression(input, at)
        },
{
    reveal(statement);
    reveal(expression);
}

/// The methods from `at` on are one method and then those that follow it.
pub proof fn lemma_methods_step(input: Input, at: nat, found: Map<Seq<char>, MethodView>)
    ensures
        methods(input, at, found) == match input.peek(at) {
            Err(error) => Err(error),
            Ok(token) => if starts_pattern(token.symbol) {
                match method(input, at) {
                    Err(error) => Err(error),
                    Ok(((name, method), count)) => shifted(
                        methods(input, at + count, found.insert(name, method)),
                        count,
                    ),
                }
            } else {
                Ok((found, 0))
            },
        },
{
    reveal(methods);
}

/// The binary messages from `at` on are one binary message and then those
/// that follow it.
pub proof fn lemma_binary_messages_step(input: Input, at: nat, left: ExpressionView)
    ensures
        binary_messages(input, at, left) == if at < input.len() && binary_selector(
            input.token(at),
        ) is Some {
            match binary_message(input, at, left) {
                Err(error) => Err(error),
                Ok((value, count)) => shifted(binary_messages(input, at + count, value), count),
            }
        } else if input.broken(at) {
            Err(input.ending())
        } else {
            Ok((left, 0))
        },
        binary_message(input, at, left) matches Ok((_, count)) ==> count >= 1 && at < input.len(),
{
    reveal(binary_messages);
    reveal(binary_message);
    reveal(operand);
}

/// The statements from `at` on are one statement and, behind a period, those
/// that follow it.
pub proof fn lemma_block_body_step(input: Input, at: nat)
    ensures
        block_body(input, at) == if input.holds(at, Symbol::EndTerm) || input.holds(
            at,
            Symbol::EndBlock,
        ) {
            Ok((Seq::empty(), 0))
        } else if at >= input.len() {
            if input.broken(at) {
                Err(input.ending())
            } else {
                Ok((Seq::empty(), 0))
            }
        } else {
            match statement(input, at) {
                Err(error) => Err(error),
                Ok((first, count)) => if input.holds(at + count, Symbol::Period) {
                    extended(seq![first], count + 1, block_body(input, at + count + 1))
                } else if input.broken(at + count) {
                    Err(input.ending())
                } else {
                    Ok((seq![first], count))
                },
            }
        },
{
    reveal(block_body);
    reveal(statement);
}

/// The keywords of a message from `at` on are one keyword with its argument
/// and those that follow it.
pub proof fn lemma_keyword_parts_step(input: Input, at: nat)
    ensures
        keyword_parts(input, at) == if input.holds(at, Symbol::Keyword) {
            match formula(input, at + 1) {
                Err(error) => Err(error),
                Ok((argument, count)) => joined(
                    input.token(at).lexeme(),
                    seq![argument],
                    count + 1,
                    keyword_parts(input, at + 1 + count),
                ),
            }
        } else if input.broken(at) {
            Err(input.ending())
        } else {
            Ok(((Seq::empty(), Seq::empty()), 0))
        },
{
    reveal(keyword_parts);
    reveal(formula);
}

/// A keyword message is its receiver with the keywords and their arguments.
pub proof fn lemma_keyword_message(input: Input, at: nat, receiver: ExpressionView)
    ensures
        keyword_message(input, at, receiver) == match keyword_parts(input, at) {
            Err(error) => Err(error),
            Ok(((selector, arguments), count)) => Ok(
                (
                    ExpressionView::KeywordMessage {
                        message: selector,
                        receiver: Box::new(receiver),
                        parameters: arguments,
                    },
                    count,
                ),
            ),
        },
{
    reveal(keyword_message);
    reveal(keyword_parts);
}

/// The digits that follow do not make a number smaller.
pub proof fn lemma_decimal_value_grows(digits: Seq<char>, count: int)
    requires
        all_digits(digits),
        0 <= count <= digits.len(),
    ensures
        decimal_value(digits.take(count)) <= decimal_value(digits),
    decreases digits.len() - count,
{
    if count < digits.len() {
        assert(digits.take(count + 1).drop_last() == digits.take(count));
        assert(digit(digits[count]));
        lemma_decimal_value_grows(digits, count + 1);
    } else {
        assert(digits.take(count) == digits);
    }
}

} // verus!
