//! What the tokens of a text are: the lexical rules, as functions of the
//! text, and what follows from them.

use crate::compiler::lexer::Error;
use crate::compiler::token::{Symbol, TokenView};
use crate::util::peekable_buffer::{concat, location_at, Location};
use vstd::prelude::*;

verus! {

/// The sets of characters that the lexical rules speak of.
#[derive(Clone, Copy, Debug, PartialEq, Eq, Structural)]
pub enum CharClass {
    /// White space, as Unicode defines it.
    Whitespace,
    /// The letters `a` to `z` and `A` to `Z`.
    Letter,
    /// The digits `0` to `9`.
    Digit,
    /// Letters, digits and the underscore.
    Identifier,
    /// Letters, digits and the colon.
    KeywordPart,
    /// The characters that operators are made of.
    Operator,
    /// The minus sign.
    Minus,
    /// All but the quote that ends a string.
    StringBody,
    /// All but the quote that ends a comment.
    CommentBody,
}

/// One of the letters `a` to `z` and `A` to `Z`.
pub open spec fn letter(c: char) -> bool {
    ('a' <= c && c <= 'z') || ('A' <= c && c <= 'Z')
}

/// One of the digits `0` to `9`.
pub open spec fn digit(c: char) -> bool {
    '0' <= c && c <= '9'
}

impl CharClass {
    /// Whether the character belongs to the class.
    pub open spec fn has(self, c: char) -> bool {
        match self {
            CharClass::Whitespace => c == ' ' || ('\t' <= c && c <= '\r') || c == '\u{85}' || c
                == '\u{A0}' || c == '\u{1680}' || ('\u{2000}' <= c && c <= '\u{200A}') || c
                == '\u{2028}' || c == '\u{2029}' || c == '\u{202F}' || c == '\u{205F}' || c
                == '\u{3000}',
            CharClass::Letter => letter(c),
            CharClass::Digit => digit(c),
            CharClass::Identifier => letter(c) || digit(c) || c == '_',
            CharClass::KeywordPart => letter(c) || digit(c) || c == ':',
            CharClass::Operator => c == '~' || c == '&' || c == '|' || c == '*' || c == '/' || c
                == '\\' || c == '+' || c == '=' || c == '>' || c == '<' || c == ',' || c == '@'
                || c == '%',
            CharClass::Minus => c == '-',
            CharClass::StringBody => c != '\'',
            CharClass::CommentBody => c != '"',
        }
    }
}

/// Where the longest run of characters of one class that starts at `from` ends.
pub open spec fn run_end(chars: Seq<char>, from: int, class: CharClass) -> int
    decreases chars.len() - from,
{
    if 0 <= from < chars.len() && class.has(chars[from]) {
        run_end(chars, from + 1, class)
    } else {
        from
    }
}

/// A run stays inside the text, holds characters of its class alone, and
/// ends before a character outside the class or at the end of the text.
pub proof fn lemma_run_end(chars: Seq<char>, from: int, class: CharClass)
    requires
        0 <= from <= chars.len(),
    ensures
        from <= run_end(chars, from, class) <= chars.len(),
        forall|k: int| from <= k < run_end(chars, from, class) ==> class.has(#[trigger] chars[k]),
        run_end(chars, from, class) < chars.len() ==> !class.has(
            chars[run_end(chars, from, class)],
        ),
    decreases chars.len() - from,
{
    if from < chars.len() && class.has(chars[from]) {
        lemma_run_end(chars, from + 1, class);
    }
}

/// A run ends at the first character outside the class, and nowhere else.
pub proof fn lemma_run_end_is(chars: Seq<char>, from: int, class: CharClass, end: int)
    requires
        0 <= from <= end <= chars.len(),
        forall|k: int| from <= k < end ==> class.has(#[trigger] chars[k]),
        end < chars.len() ==> !class.has(chars[end]),
    ensures
        run_end(chars, from, class) == end,
    decreases end - from,
{
    if from < end {
        lemma_run_end_is(chars, from + 1, class, end);
    }
}

/// The position just past a quoted text whose body starts at `body`: past the
/// closing quote, or the end of the input where the quote is missing.
pub open spec fn quoted_end(chars: Seq<char>, body: int, class: CharClass) -> int {
    let close = run_end(chars, body, class);
    if close < chars.len() {
        close + 1
    } else {
        close
    }
}

/// The first position at or after `from` that is neither white space nor inside
/// a comment. A comment runs from one double quote to the next; one that is
/// not closed runs to the end of the input.
pub open spec fn skip_trivia(chars: Seq<char>, from: int) -> int
    decreases chars.len() - from,
{
    if 0 <= from < chars.len() && CharClass::Whitespace.has(chars[from]) {
        skip_trivia(chars, from + 1)
    } else if 0 <= from < chars.len() && chars[from] == '"' {
        proof {
            lemma_run_end(chars, from + 1, CharClass::CommentBody);
        }
        skip_trivia(chars, quoted_end(chars, from + 1, CharClass::CommentBody))
    } else {
        from
    }
}

/// Behind the trivia stands the end of the text, or a character that is
/// neither white space nor the start of a comment.
pub proof fn lemma_skip_trivia(chars: Seq<char>, from: int)
    requires
        0 <= from <= chars.len(),
    ensures
        from <= skip_trivia(chars, from) <= chars.len(),
        skip_trivia(chars, from) < chars.len() ==> {
            &&& !CharClass::Whitespace.has(chars[skip_trivia(chars, from)])
            &&& chars[skip_trivia(chars, from)] != '"'
        },
    decreases chars.len() - from,
{
    if from < chars.len() && CharClass::Whitespace.has(chars[from]) {
        lemma_skip_trivia(chars, from + 1);
    } else if from < chars.len() && chars[from] == '"' {
        lemma_run_end(chars, from + 1, CharClass::CommentBody);
        lemma_skip_trivia(chars, quoted_end(chars, from + 1, CharClass::CommentBody));
    }
}

/// White space at the start makes no difference to where the trivia end.
pub proof fn lemma_skip_trivia_after_whitespace(chars: Seq<char>, from: int)
    requires
        0 <= from <= chars.len(),
    ensures
        skip_trivia(chars, from) == skip_trivia(
            chars,
            run_end(chars, from, CharClass::Whitespace),
        ),
    decreases chars.len() - from,
{
    if from < chars.len() && CharClass::Whitespace.has(chars[from]) {
        lemma_skip_trivia_after_whitespace(chars, from + 1);
    }
}

/// A token with the place where it starts.
pub ghost struct ItemView {
    pub token: TokenView,
    pub location: Location,
}

/// A token without text that starts at `at`.
pub open spec fn bare(symbol: Symbol, chars: Seq<char>, at: int) -> ItemView {
    ItemView { token: TokenView { symbol, text: None }, location: location_at(chars, at) }
}

/// A token that starts at `at` and carries the characters from `from` up to `to`.
pub open spec fn worded(symbol: Symbol, chars: Seq<char>, at: int, from: int, to: int) -> ItemView {
    ItemView {
        token: TokenView { symbol, text: Some(chars.subrange(from, to)) },
        location: location_at(chars, at),
    }
}

/// What one step of the lexer finds at a position.
pub ghost enum Scan {
    /// Nothing is left to read.
    End,
    /// The character at the position starts no token.
    Unexpected(char),
    /// The tokens read in this step, and the position after them.
    Tokens(Seq<ItemView>, int),
}

/// The symbol of a character that is a token by itself.
pub open spec fn punctuation(c: char) -> Option<Symbol> {
    if c == '[' {
        Some(Symbol::NewBlock)
    } else if c == ']' {
        Some(Symbol::EndBlock)
    } else if c == '(' {
        Some(Symbol::NewTerm)
    } else if c == ')' {
        Some(Symbol::EndTerm)
    } else if c == '#' {
        Some(Symbol::Pound)
    } else if c == '^' {
        Some(Symbol::Exit)
    } else if c == '.' {
        Some(Symbol::Period)
    } else {
        None
    }
}

/// The symbol of an operator character that stands alone.
pub open spec fn operator_symbol(c: char) -> Symbol {
    if c == '~' {
        Symbol::Not
    } else if c == '&' {
        Symbol::And
    } else if c == '|' {
        Symbol::Or
    } else if c == '*' {
        Symbol::Star
    } else if c == '/' {
        Symbol::Divide
    } else if c == '\\' {
        Symbol::Modulus
    } else if c == '+' {
        Symbol::Plus
    } else if c == '=' {
        Symbol::Equal
    } else if c == '>' {
        Symbol::More
    } else if c == '<' {
        Symbol::Less
    } else if c == ',' {
        Symbol::Comma
    } else if c == '@' {
        Symbol::At
    } else {
        Symbol::Percent
    }
}

/// A run of minus signs: four or more are one separator, fewer are one minus
/// token each, each at its own place.
pub open spec fn scan_minus(chars: Seq<char>, start: int) -> Scan {
    let end = run_end(chars, start, CharClass::Minus);
    if end - start >= 4 {
        Scan::Tokens(seq![bare(Symbol::Separator, chars, start)], end)
    } else {
        Scan::Tokens(
            Seq::new((end - start) as nat, |k: int| bare(Symbol::Minus, chars, start + k)),
            end,
        )
    }
}

/// A colon, which with an equals sign behind it is the assignment sign.
pub open spec fn scan_colon(chars: Seq<char>, start: int) -> Scan {
    if start + 1 < chars.len() && chars[start + 1] == '=' {
        Scan::Tokens(seq![bare(Symbol::Assign, chars, start)], start + 2)
    } else {
        Scan::Tokens(seq![bare(Symbol::Colon, chars, start)], start + 1)
    }
}

/// A word: an identifier, the reserved word, a keyword (a word with a colon
/// behind it) or a sequence of keywords (a keyword with a letter behind it,
/// up to the end of the letters, digits and colons that follow).
pub open spec fn scan_word(chars: Seq<char>, start: int) -> Scan {
    let stem = run_end(chars, start, CharClass::Identifier);
    if stem < chars.len() && chars[stem] == ':' {
        if stem + 1 < chars.len() && CharClass::Letter.has(chars[stem + 1]) {
            let end = run_end(chars, stem + 1, CharClass::KeywordPart);
            Scan::Tokens(seq![worded(Symbol::KeywordSequence, chars, start, start, end)], end)
        } else {
            Scan::Tokens(seq![worded(Symbol::Keyword, chars, start, start, stem + 1)], stem + 1)
        }
    } else if chars.subrange(start, stem) == "primitive"@ {
        Scan::Tokens(seq![bare(Symbol::Primitive, chars, start)], stem)
    } else {
        Scan::Tokens(seq![worded(Symbol::Identifier, chars, start, start, stem)], stem)
    }
}

/// A number: digits, and a fraction where a point with a digit behind it
/// follows. A point without a digit behind it is a period of its own.
pub open spec fn scan_number(chars: Seq<char>, start: int) -> Scan {
    let whole = run_end(chars, start, CharClass::Digit);
    if whole < chars.len() && chars[whole] == '.' {
        if whole + 1 < chars.len() && CharClass::Digit.has(chars[whole + 1]) {
            let end = run_end(chars, whole + 1, CharClass::Digit);
            Scan::Tokens(seq![worded(Symbol::Double, chars, start, start, end)], end)
        } else {
            Scan::Tokens(
                seq![
                    worded(Symbol::Integer, chars, start, start, whole),
                    bare(Symbol::Period, chars, whole),
                ],
                whole + 1,
            )
        }
    } else {
        Scan::Tokens(seq![worded(Symbol::Integer, chars, start, start, whole)], whole)
    }
}

/// A string: all up to the next single quote, or up to the end of the input
/// where none follows.
pub open spec fn scan_string(chars: Seq<char>, start: int) -> Scan {
    Scan::Tokens(
        seq![
            worded(
                Symbol::String,
                chars,
                start,
                start + 1,
                run_end(chars, start + 1, CharClass::StringBody),
            ),
        ],
        quoted_end(chars, start + 1, CharClass::StringBody),
    )
}

/// An operator: two or more operator characters are one sequence, a single
/// one is the token of that character.
pub open spec fn scan_operator(chars: Seq<char>, start: int) -> Scan {
    let end = run_end(chars, start, CharClass::Operator);
    if end - start >= 2 {
        Scan::Tokens(seq![worded(Symbol::OperatorSequence, chars, start, start, end)], end)
    } else {
        Scan::Tokens(seq![bare(operator_symbol(chars[start]), chars, start)], end)
    }
}

/// The tokens that start at `start`, a position that holds neither white
/// space nor a comment.
pub open spec fn scan(chars: Seq<char>, start: int) -> Scan {
    if start < 0 || start >= chars.len() {
        Scan::End
    } else {
        let c = chars[start];
        if punctuation(c) is Some {
            Scan::Tokens(seq![bare(punctuation(c)->0, chars, start)], start + 1)
        } else if c == '-' {
            scan_minus(chars, start)
        } else if c == ':' {
            scan_colon(chars, start)
        } else if CharClass::Letter.has(c) {
            scan_word(chars, start)
        } else if CharClass::Digit.has(c) {
            scan_number(chars, start)
        } else if c == '\'' {
            scan_string(chars, start)
        } else if CharClass::Operator.has(c) {
            scan_operator(chars, start)
        } else {
            Scan::Unexpected(c)
        }
    }
}

/// Every step that yields tokens yields one, two or three and moves on.
pub proof fn lemma_scan_advances(chars: Seq<char>, start: int)
    ensures
        scan(chars, start) matches Scan::Tokens(items, next) ==> {
            &&& 0 <= start < next <= chars.len()
            &&& 1 <= items.len() <= 3
        },
{
    if 0 <= start < chars.len() {
        lemma_run_end(chars, start, CharClass::Minus);
        lemma_run_end(chars, start, CharClass::Identifier);
        lemma_run_end(chars, start, CharClass::Digit);
        lemma_run_end(chars, start, CharClass::Operator);
        lemma_run_end(chars, start + 1, CharClass::StringBody);
        let stem = run_end(chars, start, CharClass::Identifier);
        if stem < chars.len() {
            lemma_run_end(chars, stem + 1, CharClass::KeywordPart);
        }
        let whole = run_end(chars, start, CharClass::Digit);
        if whole < chars.len() {
            lemma_run_end(chars, whole + 1, CharClass::Digit);
        }
    }
}

/// All the tokens of a text, and how the text ends for the lexer: at its end,
/// or at a character that starts no token.
pub ghost struct TokenStream {
    pub items: Seq<ItemView>,
    pub end: Error,
}

impl TokenStream {
    /// The stream after its first token was taken.
    pub open spec fn rest(self) -> TokenStream {
        TokenStream { items: self.items.drop_first(), end: self.end }
    }
}

/// The tokens of the text from `from` on.
pub open spec fn tokens_from(chars: Seq<char>, from: int) -> TokenStream
    decreases chars.len() - from,
{
    if 0 <= from <= chars.len() {
        let start = skip_trivia(chars, from);
        match scan(chars, start) {
            Scan::End => TokenStream { items: Seq::empty(), end: Error::End },
            Scan::Unexpected(character) => TokenStream {
                items: Seq::empty(),
                end: Error::Unexpected { character, location: location_at(chars, start) },
            },
            Scan::Tokens(items, next) => {
                proof {
                    lemma_skip_trivia(chars, from);
                    lemma_scan_advances(chars, start);
                }
                let later = tokens_from(chars, next);
                TokenStream { items: items + later.items, end: later.end }
            },
        }
    } else {
        TokenStream { items: Seq::empty(), end: Error::End }
    }
}

/// The tokens of a text.
pub open spec fn token_stream(chars: Seq<char>) -> TokenStream {
    tokens_from(chars, 0)
}

/// A text of one letter, digit or underscore at least.
pub open spec fn is_name(text: Seq<char>) -> bool {
    text.len() > 0 && forall|i: int| 0 <= i < text.len() ==> CharClass::Identifier.has(
        #[trigger] text[i],
    )
}

/// A name that starts with a letter and is not the reserved word.
pub open spec fn is_word(text: Seq<char>) -> bool {
    is_name(text) && letter(text[0]) && text != "primitive"@
}

/// A text without a single quote.
pub open spec fn has_no_quote(text: Seq<char>) -> bool {
    forall|i: int| 0 <= i < text.len() ==> #[trigger] text[i] != '\''
}

/// A name with a colon at `k` behind it, then a letter, then letters, digits
/// and colons.
pub open spec fn keywords_from(text: Seq<char>, k: int) -> bool {
    &&& 0 < k < text.len() - 1
    &&& text[k] == ':'
    &&& is_name(text.take(k))
    &&& letter(text[k + 1])
    &&& forall|i: int| k < i < text.len() ==> CharClass::KeywordPart.has(#[trigger] text[i])
}

/// Digits with a point at `k` between them.
pub open spec fn point_at(text: Seq<char>, k: int) -> bool {
    &&& 0 < k < text.len() - 1
    &&& text[k] == '.'
    &&& forall|i: int| 0 <= i < text.len() && i != k ==> digit(#[trigger] text[i])
}

/// A text of digits with a point between them.
pub open spec fn is_decimal(text: Seq<char>) -> bool {
    exists|k: int| point_at(text, k)
}

/// Whether a text has the shape that the lexer gives to the text of a token
/// of this kind.
pub open spec fn well_formed_text(symbol: Symbol, text: Seq<char>) -> bool {
    match symbol {
        Symbol::Identifier => is_word(text),
        Symbol::Keyword => text.len() >= 2 && text.last() == ':' && is_name(text.drop_last())
            && letter(text[0]),
        Symbol::KeywordSequence => letter(text[0]) && exists|k: int| keywords_from(text, k),
        Symbol::OperatorSequence => text.len() >= 2 && forall|i: int|
            0 <= i < text.len() ==> CharClass::Operator.has(#[trigger] text[i]),
        Symbol::Integer => text.len() >= 1 && forall|i: int|
            0 <= i < text.len() ==> digit(#[trigger] text[i]),
        Symbol::Double => is_decimal(text),
        Symbol::String => has_no_quote(text),
        _ => false,
    }
}

/// Whether a token has the shape that the lexer gives to tokens of its kind:
/// a text of that shape where the kind has a text, and no text where it has
/// none.
pub open spec fn well_formed(token: TokenView) -> bool {
    if token.symbol.has_text() {
        token.text is Some && well_formed_text(token.symbol, token.text->0)
    } else {
        token.text is None
    }
}

/// Every token that one step of the lexer yields is well formed.
pub proof fn lemma_scan_well_formed(chars: Seq<char>, start: int)
    ensures
        scan(chars, start) matches Scan::Tokens(items, _) ==> forall|i: int|
            0 <= i < items.len() ==> well_formed(#[trigger] items[i].token),
{
    if 0 <= start < chars.len() {
        let c = chars[start];
        if punctuation(c) is Some {
            let items = scan(chars, start)->Tokens_0;
            assert(forall|i: int| 0 <= i < items.len() ==> well_formed(#[trigger] items[i].token));
        } else if c == '-' {
            let items = scan(chars, start)->Tokens_0;
            assert(forall|i: int| 0 <= i < items.len() ==> well_formed(#[trigger] items[i].token));
        } else if c == ':' {
            let items = scan(chars, start)->Tokens_0;
            assert(forall|i: int| 0 <= i < items.len() ==> well_formed(#[trigger] items[i].token));
        } else if letter(c) {
            lemma_run_end(chars, start, CharClass::Identifier);
            let stem = run_end(chars, start, CharClass::Identifier);
            assert(stem > start);
            let word = chars.subrange(start, stem);
            assert(is_name(word)) by {
                assert forall|i: int| 0 <= i < word.len() implies CharClass::Identifier.has(
                    #[trigger] word[i],
                ) by {
                    assert(word[i] == chars[start + i]);
                }
            }
            if stem < chars.len() && chars[stem] == ':' {
                if stem + 1 < chars.len() && letter(chars[stem + 1]) {
                    lemma_run_end(chars, stem + 1, CharClass::KeywordPart);
                    let end = run_end(chars, stem + 1, CharClass::KeywordPart);
                    assert(end > stem + 1);
                    let text = chars.subrange(start, end);
                    let k = stem - start;
                    assert(text[k] == ':');
                    assert(text.take(k) =~= word);
                    assert(letter(text[k + 1]));
                    assert forall|i: int| k < i < text.len() implies CharClass::KeywordPart.has(
                        #[trigger] text[i],
                    ) by {
                        assert(text[i] == chars[start + i]);
                    }
                    assert(keywords_from(text, k));
                    assert(letter(text[0]));
                    let token = TokenView { symbol: Symbol::KeywordSequence, text: Some(text) };
                    assert(well_formed(token));
                } else {
                    let text = chars.subrange(start, stem + 1);
                    assert(text.drop_last() =~= word);
                    let token = TokenView { symbol: Symbol::Keyword, text: Some(text) };
                    assert(well_formed(token));
                }
            } else if word == "primitive"@ {
            } else {
                let token = TokenView { symbol: Symbol::Identifier, text: Some(word) };
                assert(well_formed(token));
            }
            let items = scan(chars, start)->Tokens_0;
            assert(forall|i: int| 0 <= i < items.len() ==> well_formed(#[trigger] items[i].token));
        } else if digit(c) {
            lemma_run_end(chars, start, CharClass::Digit);
            let whole = run_end(chars, start, CharClass::Digit);
            assert(whole > start);
            let number = chars.subrange(start, whole);
            assert forall|i: int| 0 <= i < number.len() implies digit(#[trigger] number[i]) by {
                assert(number[i] == chars[start + i]);
            }
            if whole < chars.len() && chars[whole] == '.' && whole + 1 < chars.len() && digit(
                chars[whole + 1],
            ) {
                lemma_run_end(chars, whole + 1, CharClass::Digit);
                let end = run_end(chars, whole + 1, CharClass::Digit);
                assert(end > whole + 1);
                let text = chars.subrange(start, end);
                let k = whole - start;
                assert(text[k] == '.');
                assert forall|i: int| 0 <= i < text.len() && i != k implies digit(
                    #[trigger] text[i],
                ) by {
                    assert(text[i] == chars[start + i]);
                }
                assert(point_at(text, k));
                let token = TokenView { symbol: Symbol::Double, text: Some(text) };

                assert(well_formed(token));
            } else {
                let token = TokenView { symbol: Symbol::Integer, text: Some(number) };
                assert(well_formed(token));
            }
            let items = scan(chars, start)->Tokens_0;
            assert(forall|i: int| 0 <= i < items.len() ==> well_formed(#[trigger] items[i].token));
        } else if c == '\'' {
            lemma_run_end(chars, start + 1, CharClass::StringBody);
            let close = run_end(chars, start + 1, CharClass::StringBody);
            let text = chars.subrange(start + 1, close);
            assert forall|i: int| 0 <= i < text.len() implies #[trigger] text[i] != '\'' by {
                assert(text[i] == chars[start + 1 + i]);
            }
            let items = scan(chars, start)->Tokens_0;
            assert(forall|i: int| 0 <= i < items.len() ==> well_formed(#[trigger] items[i].token));
        } else if CharClass::Operator.has(c) {
            lemma_run_end(chars, start, CharClass::Operator);
            let end = run_end(chars, start, CharClass::Operator);
            let text = chars.subrange(start, end);
            assert forall|i: int| 0 <= i < text.len() implies CharClass::Operator.has(
                #[trigger] text[i],
            ) by {
                assert(text[i] == chars[start + i]);
            }
            let items = scan(chars, start)->Tokens_0;
            assert(forall|i: int| 0 <= i < items.len() ==> well_formed(#[trigger] items[i].token));
        }
    }
}

/// Every token of a text is well formed. In particular no identifier is the
/// reserved word, and a keyword is a name with one colon behind it.
pub proof fn lemma_tokens_well_formed(chars: Seq<char>, from: int)
    ensures
        forall|i: int|
            0 <= i < tokens_from(chars, from).items.len() ==> well_formed(
                #[trigger] tokens_from(chars, from).items[i].token,
            ),
    decreases chars.len() - from,
{
    if 0 <= from <= chars.len() {
        let start = skip_trivia(chars, from);
        match scan(chars, start) {
            Scan::Tokens(items, next) => {
                lemma_skip_trivia(chars, from);
                lemma_scan_advances(chars, start);
                lemma_scan_well_formed(chars, start);
                lemma_tokens_well_formed(chars, next);
                let later = tokens_from(chars, next);
                let all = tokens_from(chars, from).items;
                assert(all == items + later.items);
                assert forall|i: int| 0 <= i < all.len() implies well_formed(
                    #[trigger] all[i].token,
                ) by {
                    if i < items.len() {
                        assert(all[i] == items[i]);
                    } else {
                        assert(all[i] == later.items[i - items.len()]);
                    }
                }
            },
            _ => {},
        }
    }
}

/// A run of minus signs is one separator where it has four signs or more,
/// and as many minus tokens as it has signs, each at the place of its sign,
/// where it has fewer.
pub proof fn lemma_minus_run(chars: Seq<char>, start: int, count: int)
    requires
        0 <= start,
        1 <= count,
        start + count <= chars.len(),
        forall|k: int| start <= k < start + count ==> chars[k] == '-',
        start + count < chars.len() ==> chars[start + count] != '-',
    ensures
        scan(chars, start) == Scan::Tokens(
            if count >= 4 {
                seq![bare(Symbol::Separator, chars, start)]
            } else {
                Seq::new(count as nat, |k: int| bare(Symbol::Minus, chars, start + k))
            },
            start + count,
        ),
{
    lemma_run_end_is(chars, start, CharClass::Minus, start + count);
}

/// A text of minus signs alone has one token where it has four signs or
/// more, and one token for each sign where it has fewer.
pub proof fn lemma_minus_signs_alone(chars: Seq<char>)
    requires
        chars.len() >= 1,
        forall|k: int| 0 <= k < chars.len() ==> chars[k] == '-',
    ensures
        token_stream(chars).end == Error::End,
        token_stream(chars).items.len() == if chars.len() >= 4 {
            1
        } else {
            chars.len()
        },
        forall|i: int|
            0 <= i < token_stream(chars).items.len() ==> (#[trigger] token_stream(
                chars,
            ).items[i]).token == (TokenView {
                symbol: if chars.len() >= 4 {
                    Symbol::Separator
                } else {
                    Symbol::Minus
                },
                text: None,
            }),
{
    let count = chars.len() as int;
    lemma_minus_run(chars, 0, count);
    assert(skip_trivia(chars, 0) == 0);
    assert(skip_trivia(chars, count) == count);
    let later = tokens_from(chars, count);
    assert(later.items =~= Seq::<ItemView>::empty());
    let items = scan(chars, 0)->Tokens_0;
    assert(token_stream(chars).items =~= items);
}

/// Digits with a point behind them that no digit follows are an integer and
/// a period: the point is no part of the number.
pub proof fn lemma_integer_before_period(chars: Seq<char>, start: int)
    requires
        0 <= start < chars.len(),
        digit(chars[start]),
        run_end(chars, start, CharClass::Digit) < chars.len(),
        chars[run_end(chars, start, CharClass::Digit)] == '.',
        run_end(chars, start, CharClass::Digit) + 1 < chars.len() ==> !digit(
            chars[run_end(chars, start, CharClass::Digit) + 1],
        ),
    ensures
        scan(chars, start) == Scan::Tokens(
            seq![
                worded(
                    Symbol::Integer,
                    chars,
                    start,
                    start,
                    run_end(chars, start, CharClass::Digit),
                ),
                bare(Symbol::Period, chars, run_end(chars, start, CharClass::Digit)),
            ],
            run_end(chars, start, CharClass::Digit) + 1,
        ),
{
}

/// Digits, a point and digits are one decimal number, which ends where the
/// digits behind the point end: a letter behind them is no part of it.
pub proof fn lemma_double(chars: Seq<char>, start: int)
    requires
        0 <= start < chars.len(),
        digit(chars[start]),
        run_end(chars, start, CharClass::Digit) + 1 < chars.len(),
        chars[run_end(chars, start, CharClass::Digit)] == '.',
        digit(chars[run_end(chars, start, CharClass::Digit) + 1]),
    ensures
        scan(chars, start) == Scan::Tokens(
            seq![
                worded(
                    Symbol::Double,
                    chars,
                    start,
                    start,
                    run_end(chars, run_end(chars, start, CharClass::Digit) + 1, CharClass::Digit),
                ),
            ],
            run_end(chars, run_end(chars, start, CharClass::Digit) + 1, CharClass::Digit),
        ),
{
}

/// Two or more operator characters side by side are one token: the sequence
/// of all operator characters that follow each other there.
pub proof fn lemma_operator_sequence(chars: Seq<char>, start: int)
    requires
        0 <= start,
        start + 1 < chars.len(),
        CharClass::Operator.has(chars[start]),
        CharClass::Operator.has(chars[start + 1]),
    ensures
        run_end(chars, start, CharClass::Operator) >= start + 2,
        scan(chars, start) == Scan::Tokens(
            seq![
                worded(
                    Symbol::OperatorSequence,
                    chars,
                    start,
                    start,
                    run_end(chars, start, CharClass::Operator),
                ),
            ],
            run_end(chars, start, CharClass::Operator),
        ),
        run_end(chars, start, CharClass::Operator) < chars.len() ==> !CharClass::Operator.has(
            chars[run_end(chars, start, CharClass::Operator)],
        ),
{
    lemma_run_end(chars, start + 2, CharClass::Operator);
    reveal_with_fuel(run_end, 3);
}

/// A word without a colon behind it is the reserved word where it reads
/// `primitive`, and an identifier with the word as its text where it reads
/// anything else.
pub proof fn lemma_reserved_word(chars: Seq<char>, start: int)
    requires
        0 <= start < chars.len(),
        letter(chars[start]),
        run_end(chars, start, CharClass::Identifier) < chars.len() ==> chars[run_end(
            chars,
            start,
            CharClass::Identifier,
        )] != ':',
    ensures
        scan(chars, start) == Scan::Tokens(
            seq![
                if chars.subrange(start, run_end(chars, start, CharClass::Identifier))
                    == "primitive"@ {
                    bare(Symbol::Primitive, chars, start)
                } else {
                    worded(
                        Symbol::Identifier,
                        chars,
                        start,
                        start,
                        run_end(chars, start, CharClass::Identifier),
                    )
                },
            ],
            run_end(chars, start, CharClass::Identifier),
        ),
{
}

/// The tokens of a text do not depend on the pieces in which it was read.
pub proof fn lemma_chunks_make_no_difference(first: Seq<Seq<char>>, second: Seq<Seq<char>>)
    requires
        concat(first) == concat(second),
    ensures
        token_stream(concat(first)) == token_stream(concat(second)),
{
}

} // verus!
