//! Tokens written as a text, and read back by the lexer.

use crate::compiler::lexer::Error;
use crate::compiler::lexical::{
    bare, digit, keywords_from, lemma_run_end_is, point_at, scan, skip_trivia, tokens_from,
    well_formed, CharClass, ItemView, Scan,
};
use crate::compiler::token::{Symbol, TokenView};
use crate::util::peekable_buffer::location_at;
use vstd::prelude::*;

verus! {

/// The text that writes a token.
pub open spec fn spelling(token: TokenView) -> Seq<char> {
    match token.symbol {
        Symbol::NewTerm => seq!['('],
        Symbol::EndTerm => seq![')'],
        Symbol::NewBlock => seq!['['],
        Symbol::EndBlock => seq![']'],
        Symbol::Period => seq!['.'],
        Symbol::Pound => seq!['#'],
        Symbol::Exit => seq!['^'],
        Symbol::Colon => seq![':'],
        Symbol::Assign => seq![':', '='],
        Symbol::Minus => seq!['-'],
        Symbol::Separator => seq!['-', '-', '-', '-'],
        Symbol::Primitive => "primitive"@,
        Symbol::Not => seq!['~'],
        Symbol::And => seq!['&'],
        Symbol::Or => seq!['|'],
        Symbol::Star => seq!['*'],
        Symbol::Divide => seq!['/'],
        Symbol::Modulus => seq!['\\'],
        Symbol::Plus => seq!['+'],
        Symbol::Equal => seq!['='],
        Symbol::More => seq!['>'],
        Symbol::Less => seq!['<'],
        Symbol::Comma => seq![','],
        Symbol::At => seq!['@'],
        Symbol::Percent => seq!['%'],
        Symbol::String => seq!['\''] + token.lexeme() + seq!['\''],
        _ => token.lexeme(),
    }
}

/// The text that writes tokens, each with a blank behind it.
pub open spec fn spelled(tokens: Seq<TokenView>) -> Seq<char>
    decreases tokens.len(),
{
    if tokens.len() == 0 {
        Seq::empty()
    } else {
        spelling(tokens[0]) + seq![' '] + spelled(tokens.drop_first())
    }
}

/// Whether a text holds the spelling of a token at `at`, with a blank behind
/// it.
pub open spec fn spells(chars: Seq<char>, at: int, token: TokenView) -> bool {
    &&& 0 <= at
    &&& at + spelling(token).len() < chars.len()
    &&& forall|i: int|
        0 <= i < spelling(token).len() ==> chars[at + i] == #[trigger] spelling(token)[i]
    &&& chars[at + spelling(token).len()] == ' '
}

/// The token that a step of the lexer yields where the spelling of a
/// well-formed token stands, and the position behind the spelling.
pub open spec fn scanned(chars: Seq<char>, at: int, token: TokenView) -> Scan {
    Scan::Tokens(
        seq![ItemView { token, location: location_at(chars, at) }],
        at + spelling(token).len(),
    )
}

/// The lexer reads a token without a text from its spelling.
pub proof fn lemma_sign_is_scanned(chars: Seq<char>, at: int, token: TokenView)
    requires
        well_formed(token),
        !token.symbol.has_text(),
        spells(chars, at, token),
    ensures
        skip_trivia(chars, at) == at,
        scan(chars, at) == scanned(chars, at, token),
{
    let text = spelling(token);
    reveal_strlit("primitive");
    assert(chars[at + 0] == text[0]);
    match token.symbol {
        Symbol::Assign => {
            assert(chars[at + 1] == text[1]);
        },
        Symbol::Minus => {
            lemma_run_end_is(chars, at, CharClass::Minus, at + 1);
            let items = Seq::new(1, |k: int| bare(Symbol::Minus, chars, at + k));
            assert(items =~= seq![bare(Symbol::Minus, chars, at)]);
        },
        Symbol::Separator => {
            assert(chars[at + 1] == text[1]);
            assert(chars[at + 2] == text[2]);
            assert(chars[at + 3] == text[3]);
            lemma_run_end_is(chars, at, CharClass::Minus, at + 4);
        },
        Symbol::Primitive => {
            assert forall|k: int| at <= k < at + 9 implies CharClass::Identifier.has(
                #[trigger] chars[k],
            ) by {
                assert(chars[at + (k - at)] == text[k - at]);
            }
            lemma_run_end_is(chars, at, CharClass::Identifier, at + 9);
            assert(chars.subrange(at, at + 9) =~= text);
        },
        Symbol::Not
        | Symbol::And
        | Symbol::Or
        | Symbol::Star
        | Symbol::Divide
        | Symbol::Modulus
        | Symbol::Plus
        | Symbol::Equal
        | Symbol::More
        | Symbol::Less
        | Symbol::Comma
        | Symbol::At
        | Symbol::Percent => {
            lemma_run_end_is(chars, at, CharClass::Operator, at + 1);
        },
        _ => {},
    }
}

/// The lexer reads a word, a number or an operator from its spelling.
pub proof fn lemma_word_is_scanned(chars: Seq<char>, at: int, token: TokenView)
    requires
        well_formed(token),
        token.symbol.has_text(),
        token.symbol != Symbol::String,
        spells(chars, at, token),
    ensures
        skip_trivia(chars, at) == at,
        scan(chars, at) == scanned(chars, at, token),
{
    let text = token.text->0;
    let end = at + text.len();
    assert(spelling(token) == text);
    assert forall|k: int| at <= k < end implies chars[k] == text[k - at] by {
        assert(chars[at + (k - at)] == text[k - at]);
    }
    assert(chars.subrange(at, end) =~= text);
    match token.symbol {
        Symbol::Identifier => {
            assert(chars[at] == text[0]);
            assert forall|k: int| at <= k < end implies CharClass::Identifier.has(
                #[trigger] chars[k],
            ) by {
                assert(CharClass::Identifier.has(text[k - at]));
            }
            lemma_run_end_is(chars, at, CharClass::Identifier, end);
        },
        Symbol::Keyword => {
            assert(chars[at] == text[0]);
            let name = text.drop_last();
            assert forall|k: int| at <= k < end - 1 implies CharClass::Identifier.has(
                #[trigger] chars[k],
            ) by {
                assert(CharClass::Identifier.has(name[k - at]));
            }
            assert(chars[end - 1] == text[text.len() - 1]);
            lemma_run_end_is(chars, at, CharClass::Identifier, end - 1);
        },
        Symbol::KeywordSequence => {
            assert(chars[at] == text[0]);
            let k = choose|k: int| keywords_from(text, k);
            let name = text.take(k);
            assert forall|j: int| at <= j < at + k implies CharClass::Identifier.has(
                #[trigger] chars[j],
            ) by {
                assert(CharClass::Identifier.has(name[j - at]));
            }
            assert(chars[at + k] == text[k]);
            lemma_run_end_is(chars, at, CharClass::Identifier, at + k);
            assert(chars[at + k + 1] == text[k + 1]);
            assert forall|j: int| at + k + 1 <= j < end implies CharClass::KeywordPart.has(
                #[trigger] chars[j],
            ) by {
                assert(CharClass::KeywordPart.has(text[j - at]));
            }
            lemma_run_end_is(chars, at + k + 1, CharClass::KeywordPart, end);
        },
        Symbol::OperatorSequence => {
            assert(chars[at] == text[0]);
            assert forall|k: int| at <= k < end implies CharClass::Operator.has(
                #[trigger] chars[k],
            ) by {
                assert(CharClass::Operator.has(text[k - at]));
            }
            lemma_run_end_is(chars, at, CharClass::Operator, end);
        },
        Symbol::Integer => {
            assert(chars[at] == text[0]);
            assert forall|k: int| at <= k < end implies CharClass::Digit.has(
                #[trigger] chars[k],
            ) by {
                assert(digit(text[k - at]));
            }
            lemma_run_end_is(chars, at, CharClass::Digit, end);
        },
        Symbol::Double => {
            let k = choose|k: int| point_at(text, k);
            assert(chars[at] == text[0]);
            assert(digit(text[0]));
            assert forall|j: int| at <= j < at + k implies CharClass::Digit.has(
                #[trigger] chars[j],
            ) by {
                assert(digit(text[j - at]));
            }
            assert(chars[at + k] == text[k]);
            lemma_run_end_is(chars, at, CharClass::Digit, at + k);
            assert(chars[at + k + 1] == text[k + 1]);
            assert(digit(text[k + 1]));
            assert forall|j: int| at + k + 1 <= j < end implies CharClass::Digit.has(
                #[trigger] chars[j],
            ) by {
                assert(digit(text[j - at]));
            }
            lemma_run_end_is(chars, at + k + 1, CharClass::Digit, end);
        },
        _ => {},
    }
}

/// The lexer reads a string from its spelling.
pub proof fn lemma_string_is_scanned(chars: Seq<char>, at: int, token: TokenView)
    requires
        well_formed(token),
        token.symbol == Symbol::String,
        spells(chars, at, token),
    ensures
        skip_trivia(chars, at) == at,
        scan(chars, at) == scanned(chars, at, token),
{
    let text = token.text->0;
    let all = spelling(token);
    let close = at + 1 + text.len();
    assert(all.len() == text.len() + 2);
    assert(chars[at] == all[0]);
    assert forall|k: int| at + 1 <= k < close implies chars[k] == text[k - at - 1] by {
        assert(chars[at + (k - at)] == all[k - at]);
    }
    assert forall|k: int| at + 1 <= k < close implies CharClass::StringBody.has(
        #[trigger] chars[k],
    ) by {
        assert(text[k - at - 1] != '\'');
    }
    assert(chars[at + (text.len() + 1)] == all[text.len() as int + 1]);
    lemma_run_end_is(chars, at + 1, CharClass::StringBody, close);
    assert(chars.subrange(at + 1, close) =~= text);
}

/// The lexer reads a well-formed token from its spelling.
pub proof fn lemma_spelling_is_scanned(chars: Seq<char>, at: int, token: TokenView)
    requires
        well_formed(token),
        spells(chars, at, token),
    ensures
        skip_trivia(chars, at) == at,
        scan(chars, at) == scanned(chars, at, token),
        spelling(token).len() >= 1,
{
    if !token.symbol.has_text() {
        lemma_sign_is_scanned(chars, at, token);
        reveal_strlit("primitive");
    } else if token.symbol == Symbol::String {
        lemma_string_is_scanned(chars, at, token);
    } else {
        lemma_word_is_scanned(chars, at, token);
        if token.symbol == Symbol::KeywordSequence {
            let k = choose|k: int| keywords_from(token.text->0, k);
        } else if token.symbol == Symbol::Double {
            let k = choose|k: int| point_at(token.text->0, k);
            assert(point_at(token.text->0, k));
        }
    }
}

/// The tokens of items.
pub open spec fn tokens_of(items: Seq<ItemView>) -> Seq<TokenView> {
    items.map_values(|item: ItemView| item.token)
}

/// Whether all tokens of a list are well formed.
pub open spec fn all_well_formed(tokens: Seq<TokenView>) -> bool {
    forall|i: int| 0 <= i < tokens.len() ==> well_formed(#[trigger] tokens[i])
}

/// A blank before the tokens of a text makes no difference to them.
pub proof fn lemma_blank_is_skipped(chars: Seq<char>, at: int)
    requires
        0 <= at < chars.len(),
        chars[at] == ' ',
    ensures
        tokens_from(chars, at) == tokens_from(chars, at + 1),
{
    assert(skip_trivia(chars, at) == skip_trivia(chars, at + 1));
}

/// The lexer reads well-formed tokens from the text that spells them,
/// whatever stands before it, and ends at the end of the text.
pub proof fn lemma_spelled_is_lexed(before: Seq<char>, tokens: Seq<TokenView>)
    requires
        all_well_formed(tokens),
    ensures
        tokens_from(before + spelled(tokens), before.len() as int).end == Error::End,
        tokens_of(tokens_from(before + spelled(tokens), before.len() as int).items) == tokens,
    decreases tokens.len(),
{
    let chars = before + spelled(tokens);
    let at = before.len() as int;
    if tokens.len() == 0 {
        assert(chars =~= before);
        assert(tokens_of(tokens_from(chars, at).items) =~= tokens);
    } else {
        let first = tokens[0];
        let others = tokens.drop_first();
        let text = spelling(first);
        let rest = spelled(others);
        assert(well_formed(first));
        assert(spelled(tokens) == text + seq![' '] + rest);
        assert(spells(chars, at, first)) by {
            assert forall|i: int| 0 <= i < text.len() implies chars[at + i]
                == #[trigger] text[i] by {
                assert(chars[at + i] == spelled(tokens)[i]);
            }
            assert(chars[at + text.len()] == spelled(tokens)[text.len() as int]);
        }
        lemma_spelling_is_scanned(chars, at, first);
        let next = at + text.len();
        lemma_blank_is_skipped(chars, next);
        let longer = before + text + seq![' '];
        assert(chars =~= longer + rest);
        assert(all_well_formed(others)) by {
            assert forall|i: int| 0 <= i < others.len() implies well_formed(
                #[trigger] others[i],
            ) by {
                assert(others[i] == tokens[i + 1]);
            }
        }
        lemma_spelled_is_lexed(longer, others);
        let later = tokens_from(chars, next + 1);
        let stream = tokens_from(chars, at);
        let item = ItemView { token: first, location: location_at(chars, at) };
        assert(stream.items == seq![item] + later.items);
        assert(tokens_of(stream.items) =~= seq![first] + tokens_of(later.items));
        assert(seq![first] + others =~= tokens);
    }
}

} // verus!