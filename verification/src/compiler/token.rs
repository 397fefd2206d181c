//! The kinds of token, and tokens.

use vstd::prelude::*;
use vstd::std_specs::cmp::PartialEqSpecImpl;
use vstd::std_specs::convert::FromSpecImpl;

verus! {

/// The kinds of token.
#[derive(Clone, Copy, Debug, PartialEq, Eq, Structural)]
pub enum Symbol {
    And,
    Assign,
    At,
    Colon,
    Comma,
    Divide,
    Double,
    EndBlock,
    EndTerm,
    Equal,
    Exit,
    Identifier,
    Integer,
    Keyword,
    KeywordSequence,
    Less,
    Minus,
    Modulus,
    More,
    NewBlock,
    NewTerm,
    Not,
    OperatorSequence,
    Or,
    Percent,
    Period,
    Plus,
    Pound,
    Primitive,
    Separator,
    Star,
    String,
}

impl Symbol {
    /// The symbol's name, as diagnostics print it.
    pub open spec fn name(self) -> Seq<char> {
        match self {
            Symbol::And => "And"@,
            Symbol::Assign => "Assign"@,
            Symbol::At => "At"@,
            Symbol::Colon => "Colon"@,
            Symbol::Comma => "Comma"@,
            Symbol::Divide => "Divide"@,
            Symbol::Double => "Double"@,
            Symbol::EndBlock => "EndBlock"@,
            Symbol::EndTerm => "EndTerm"@,
            Symbol::Equal => "Equal"@,
            Symbol::Exit => "Exit"@,
            Symbol::Identifier => "Identifier"@,
            Symbol::Integer => "Integer"@,
            Symbol::Keyword => "Keyword"@,
            Symbol::KeywordSequence => "KeywordSequence"@,
            Symbol::Less => "Less"@,
            Symbol::Minus => "Minus"@,
            Symbol::Modulus => "Modulus"@,
            Symbol::More => "More"@,
            Symbol::NewBlock => "NewBlock"@,
            Symbol::NewTerm => "NewTerm"@,
            Symbol::Not => "Not"@,
            Symbol::OperatorSequence => "OperatorSequence"@,
            Symbol::Or => "Or"@,
            Symbol::Percent => "Percent"@,
            Symbol::Period => "Period"@,
            Symbol::Plus => "Plus"@,
            Symbol::Pound => "Pound"@,
            Symbol::Primitive => "Primitive"@,
            Symbol::Separator => "Separator"@,
            Symbol::Star => "Star"@,
            Symbol::String => "String"@,
        }
    }

    /// Whether tokens of this kind carry the text they were read from.
    pub open spec fn has_text(self) -> bool {
        self == Symbol::Identifier || self == Symbol::Keyword || self == Symbol::KeywordSequence
            || self == Symbol::OperatorSequence || self == Symbol::Integer || self
            == Symbol::Double || self == Symbol::String
    }

    /// The symbol's name.
    pub fn as_str(self) -> (name: &'static str)
        ensures
            name@ == self.name(),
    {
        match self {
            Symbol::And => "And",
            Symbol::Assign => "Assign",
            Symbol::At => "At",
            Symbol::Colon => "Colon",
            Symbol::Comma => "Comma",
            Symbol::Divide => "Divide",
            Symbol::Double => "Double",
            Symbol::EndBlock => "EndBlock",
            Symbol::EndTerm => "EndTerm",
            Symbol::Equal => "Equal",
            Symbol::Exit => "Exit",
            Symbol::Identifier => "Identifier",
            Symbol::Integer => "Integer",
            Symbol::Keyword => "Keyword",
            Symbol::KeywordSequence => "KeywordSequence",
            Symbol::Less => "Less",
            Symbol::Minus => "Minus",
            Symbol::Modulus => "Modulus",
            Symbol::More => "More",
            Symbol::NewBlock => "NewBlock",
            Symbol::NewTerm => "NewTerm",
            Symbol::Not => "Not",
            Symbol::OperatorSequence => "OperatorSequence",
            Symbol::Or => "Or",
            Symbol::Percent => "Percent",
            Symbol::Period => "Period",
            Symbol::Plus => "Plus",
            Symbol::Pound => "Pound",
            Symbol::Primitive => "Primitive",
            Symbol::Separator => "Separator",
            Symbol::Star => "Star",
            Symbol::String => "String",
        }
    }
}

/// A token: its kind, and its text where the kind carries one.
#[derive(Debug)]
pub struct Token(pub Symbol, pub Option<String>);

/// What a token stands for.
pub ghost struct TokenView {
    pub symbol: Symbol,
    pub text: Option<Seq<char>>,
}

impl TokenView {
    /// The token's text, empty where it has none.
    pub open spec fn lexeme(self) -> Seq<char> {
        match self.text {
            Some(text) => text,
            None => Seq::empty(),
        }
    }
}

impl View for Token {
    type V = TokenView;

    open spec fn view(&self) -> TokenView {
        TokenView {
            symbol: self.0,
            text: match self.1 {
                Some(text) => Some(text@),
                None => None,
            },
        }
    }
}

impl Token {
    /// Gives up the token for its text.
    pub fn into_lexeme(self) -> (text: String)
        ensures
            text@ == self@.lexeme(),
    {
        match self.1 {
            Some(text) => text,
            None => String::new(),
        }
    }
}

impl Clone for Token {
    fn clone(&self) -> (copy: Token)
        ensures
            copy@ == self@,
    {
        let text = match &self.1 {
            Some(text) => Some(text.clone()),
            None => None,
        };
        Token(self.0, text)
    }
}

impl PartialEq for Token {
    fn eq(&self, other: &Token) -> (equal: bool) {
        self.0 == other.0 && match (&self.1, &other.1) {
            (Some(left), Some(right)) => *left == *right,
            (None, None) => true,
            _ => false,
        }
    }
}

impl PartialEqSpecImpl for Token {
    open spec fn obeys_eq_spec() -> bool {
        true
    }

    open spec fn eq_spec(&self, other: &Token) -> bool {
        self@ == other@
    }
}

/// A token equals a symbol when it is of that kind, whatever its text.
impl PartialEq<Symbol> for Token {
    fn eq(&self, other: &Symbol) -> (equal: bool) {
        self.0 == *other
    }
}

impl PartialEqSpecImpl<Symbol> for Token {
    open spec fn obeys_eq_spec() -> bool {
        true
    }

    open spec fn eq_spec(&self, other: &Symbol) -> bool {
        self.0 == *other
    }
}

impl From<Symbol> for Token {
    fn from(symbol: Symbol) -> (token: Token) {
        Token(symbol, None)
    }
}

impl FromSpecImpl<Symbol> for Token {
    open spec fn obeys_from_spec() -> bool {
        true
    }

    open spec fn from_spec(symbol: Symbol) -> Token {
        Token(symbol, None)
    }
}

} // verus!
