use som::compiler::lexer::{
    is_digit, is_identifier, is_letter, is_operator, is_whitespace, Error, Item, Lexer,
};
use som::compiler::{Symbol, Token};
use som::util::peekable_buffer::Location;

#[test]
fn skipping_whitespace() {
    let source = "\n Hello \n Test";
    let mut lexer = Lexer::new(source);
    assert_eq!(lexer.read_token().unwrap(), Token(Symbol::Identifier, Some("Hello".to_string())));
    assert_eq!(lexer.read_token().unwrap(), Token(Symbol::Identifier, Some("Test".to_string())));
}

#[test]
fn skipping_comments() {
    let source = "\"Test\" Hello \"123\" Test";
    let mut lexer = Lexer::new(source);
    assert_eq!(lexer.read_token().unwrap(), Token(Symbol::Identifier, Some("Hello".to_string())));
    assert_eq!(lexer.read_token().unwrap(), Token(Symbol::Identifier, Some("Test".to_string())));
}

#[test]
fn identifier() {
    let source = "Hello";
    let mut lexer = Lexer::new(source);
    assert_eq!(lexer.read_token().unwrap(), Token(Symbol::Identifier, Some("Hello".to_string())));
}

#[test]
fn keyword() {
    let source = "foo:";
    let mut lexer = Lexer::new(source);
    assert_eq!(lexer.read_token().unwrap(), Token(Symbol::Keyword, Some("foo:".to_string())));
}

#[test]
fn two_keyword_sequence() {
    let source = "foo:bar:";
    let mut lexer = Lexer::new(source);
    assert_eq!(
        lexer.read_token().unwrap(),
        Token(Symbol::KeywordSequence, Some("foo:bar:".to_string()))
    );
}

#[test]
fn three_keyword_sequence() {
    let source = "foo:bar:baz:";
    let mut lexer = Lexer::new(source);
    assert_eq!(
        lexer.read_token().unwrap(),
        Token(Symbol::KeywordSequence, Some("foo:bar:baz:".to_string()))
    );
}

#[test]
fn primitive() {
    let source = "primitive";
    let mut lexer = Lexer::new(source);
    assert_eq!(lexer.read_token().unwrap(), Token(Symbol::Primitive, None));
}

#[test]
fn minus() {
    let source = "-";
    let mut lexer = Lexer::new(source);
    assert_eq!(lexer.read_token().unwrap(), Token(Symbol::Minus, None));
}

#[test]
fn two_minus() {
    let source = "--";
    let mut lexer = Lexer::new(source);
    assert_eq!(lexer.read_token().unwrap(), Token(Symbol::Minus, None));
    assert_eq!(lexer.read_token().unwrap(), Token(Symbol::Minus, None));
}

#[test]
fn three_minus() {
    let source = "---";
    let mut lexer = Lexer::new(source);
    assert_eq!(lexer.read_token().unwrap(), Token(Symbol::Minus, None));
    assert_eq!(lexer.read_token().unwrap(), Token(Symbol::Minus, None));
    assert_eq!(lexer.read_token().unwrap(), Token(Symbol::Minus, None));
}

#[test]
fn separator() {
    let source = "-----";
    let mut lexer = Lexer::new(source);
    assert_eq!(lexer.read_token().unwrap(), Token(Symbol::Separator, None));
}

#[test]
fn long_separator() {
    let source = "----------------\ntest";
    let mut lexer = Lexer::new(source);
    assert_eq!(lexer.read_token().unwrap(), Token(Symbol::Separator, None));
    assert_eq!(lexer.read_token().unwrap(), Token(Symbol::Identifier, Some("test".to_string())));
}

#[test]
fn integer() {
    let source = "1";
    let mut lexer = Lexer::new(source);
    assert_eq!(lexer.read_token().unwrap(), Token(Symbol::Integer, Some("1".to_string())));
}

#[test]
fn integer_and_period() {
    let source = "1.";
    let mut lexer = Lexer::new(source);
    assert_eq!(lexer.read_token().unwrap(), Token(Symbol::Integer, Some("1".to_string())));
    assert_eq!(lexer.read_token().unwrap(), Token(Symbol::Period, None));
}

#[test]
fn double() {
    let source = "3.14";
    let mut lexer = Lexer::new(source);
    assert_eq!(lexer.read_token().unwrap(), Token(Symbol::Double, Some("3.14".to_string())));
}

#[test]
fn colon() {
    let source = ":";
    let mut lexer = Lexer::new(source);
    assert_eq!(lexer.read_token().unwrap(), Token(Symbol::Colon, None));
}

#[test]
fn assignment() {
    let source = "foo := 'Hello'";
    let mut lexer = Lexer::new(source);
    assert_eq!(lexer.read_token().unwrap(), Token(Symbol::Identifier, Some("foo".to_string())));
    assert_eq!(lexer.read_token().unwrap(), Token(Symbol::Assign, None));
    assert_eq!(lexer.read_token().unwrap(), Token(Symbol::String, Some("Hello".to_string())));
}

#[test]
fn simple_symbols() {
    let source = "[]()#^.";
    let mut lexer = Lexer::new(source);
    assert_eq!(lexer.read_token().unwrap(), Token(Symbol::NewBlock, None));
    assert_eq!(lexer.read_token().unwrap(), Token(Symbol::EndBlock, None));
    assert_eq!(lexer.read_token().unwrap(), Token(Symbol::NewTerm, None));
    assert_eq!(lexer.read_token().unwrap(), Token(Symbol::EndTerm, None));
    assert_eq!(lexer.read_token().unwrap(), Token(Symbol::Pound, None));
    assert_eq!(lexer.read_token().unwrap(), Token(Symbol::Exit, None));
    assert_eq!(lexer.read_token().unwrap(), Token(Symbol::Period, None));
}

#[test]
fn simple_operators() {
    let source = "~ & | * / \\ + = < > , @ %";
    let mut lexer = Lexer::new(source);
    assert_eq!(lexer.read_token().unwrap(), Token(Symbol::Not, None));
    assert_eq!(lexer.read_token().unwrap(), Token(Symbol::And, None));
    assert_eq!(lexer.read_token().unwrap(), Token(Symbol::Or, None));
    assert_eq!(lexer.read_token().unwrap(), Token(Symbol::Star, None));
    assert_eq!(lexer.read_token().unwrap(), Token(Symbol::Divide, None));
    assert_eq!(lexer.read_token().unwrap(), Token(Symbol::Modulus, None));
    assert_eq!(lexer.read_token().unwrap(), Token(Symbol::Plus, None));
    assert_eq!(lexer.read_token().unwrap(), Token(Symbol::Equal, None));
    assert_eq!(lexer.read_token().unwrap(), Token(Symbol::Less, None));
    assert_eq!(lexer.read_token().unwrap(), Token(Symbol::More, None));
    assert_eq!(lexer.read_token().unwrap(), Token(Symbol::Comma, None));
    assert_eq!(lexer.read_token().unwrap(), Token(Symbol::At, None));
    assert_eq!(lexer.read_token().unwrap(), Token(Symbol::Percent, None));
}

#[test]
fn operator_sequence() {
    let source = "<=";
    let mut lexer = Lexer::new(source);
    assert_eq!(
        lexer.read_token().unwrap(),
        Token(Symbol::OperatorSequence, Some("<=".to_string()))
    );
}

#[test]
fn lexer_location() {
    let source = " \n  World";
    let mut lexer = Lexer::new(source);
    let Item(_, location) = lexer.read_token().unwrap();
    assert_eq!(location, Location(2, 3));
}

#[test]
fn lexer() {
    let source = "
        Hello = (
            \"The 'run' method is called when initializing the system\"
            run = ('Hello, World from SOM' println)
        )
        ";
    let mut lexer = Lexer::new(source);
    assert_eq!(lexer.read_token().unwrap(), Token(Symbol::Identifier, Some("Hello".to_string())));
    assert_eq!(lexer.read_token().unwrap(), Token(Symbol::Equal, None));
    assert_eq!(lexer.read_token().unwrap(), Token(Symbol::NewTerm, None));
    assert_eq!(lexer.read_token().unwrap(), Token(Symbol::Identifier, Some("run".to_string())));
    assert_eq!(lexer.read_token().unwrap(), Token(Symbol::Equal, None));
    assert_eq!(lexer.read_token().unwrap(), Token(Symbol::NewTerm, None));
    assert_eq!(
        lexer.read_token().unwrap(),
        Token(Symbol::String, Some("Hello, World from SOM".to_string()))
    );
    assert_eq!(lexer.read_token().unwrap(), Token(Symbol::Identifier, Some("println".to_string())));
    assert_eq!(lexer.read_token().unwrap(), Token(Symbol::EndTerm, None));
    assert_eq!(lexer.read_token().unwrap(), Token(Symbol::EndTerm, None));
}

fn all_tokens(source: &str) -> Vec<Token> {
    let mut lexer = Lexer::new(source);
    let mut tokens = Vec::new();
    while let Some(Item(token, _)) = lexer.next() {
        tokens.push(token);
    }
    tokens
}

fn all_items(source: &str) -> Vec<Item> {
    let mut lexer = Lexer::new(source);
    let mut items = Vec::new();
    while let Some(item) = lexer.next() {
        items.push(item);
    }
    items
}

fn word(symbol: Symbol, text: &str) -> Token {
    Token(symbol, Some(text.to_string()))
}

#[test]
fn end_of_input_comes_again_and_again() {
    let mut lexer = Lexer::new("a ");
    assert_eq!(lexer.read_token().unwrap(), word(Symbol::Identifier, "a"));
    assert_eq!(lexer.read_token(), Err(Error::End));
    assert_eq!(lexer.read_token(), Err(Error::End));
    assert!(lexer.next().is_none());
}

#[test]
fn empty_input_has_no_tokens() {
    assert_eq!(all_tokens(""), Vec::<Token>::new());
    assert_eq!(all_tokens("  \n\t \"only a comment\" "), Vec::<Token>::new());
}

#[test]
fn unexpected_character_is_an_error_with_its_place() {
    let mut lexer = Lexer::new("a\n $ b");
    assert_eq!(lexer.read_token().unwrap(), word(Symbol::Identifier, "a"));
    let expected = Error::Unexpected { character: '$', location: Location(2, 2) };
    assert_eq!(lexer.read_token(), Err(expected));
    assert_eq!(lexer.read_token(), Err(expected));
    assert!(lexer.next().is_none());
}

#[test]
fn letters_outside_ascii_start_no_token() {
    let mut lexer = Lexer::new("é");
    assert_eq!(
        lexer.read_token(),
        Err(Error::Unexpected { character: 'é', location: Location(1, 1) })
    );
    assert_eq!(all_tokens("ab_1é"), vec![word(Symbol::Identifier, "ab_1")]);
}

#[test]
fn integer_before_a_period_is_not_a_double() {
    assert_eq!(
        all_items("1."),
        vec![
            Item(word(Symbol::Integer, "1"), Location(1, 1)),
            Item(Token(Symbol::Period, None), Location(1, 2)),
        ]
    );
    assert_eq!(
        all_tokens("12.foo"),
        vec![
            word(Symbol::Integer, "12"),
            Token(Symbol::Period, None),
            word(Symbol::Identifier, "foo"),
        ]
    );
}

#[test]
fn double_has_digits_on_both_sides() {
    assert_eq!(all_tokens("1.5"), vec![word(Symbol::Double, "1.5")]);
    assert_eq!(
        all_tokens("1.5.2"),
        vec![word(Symbol::Double, "1.5"), Token(Symbol::Period, None), word(Symbol::Integer, "2")]
    );
}

#[test]
fn exponent_is_not_part_of_a_number() {
    assert_eq!(
        all_tokens("1.5e"),
        vec![word(Symbol::Double, "1.5"), word(Symbol::Identifier, "e")]
    );
    assert_eq!(
        all_tokens("1e5"),
        vec![word(Symbol::Integer, "1"), word(Symbol::Identifier, "e5")]
    );
}

#[test]
fn minus_runs_by_length() {
    let minus = Token(Symbol::Minus, None);
    let separator = Token(Symbol::Separator, None);
    assert_eq!(all_tokens("-"), vec![minus.clone()]);
    assert_eq!(all_tokens("--"), vec![minus.clone(), minus.clone()]);
    assert_eq!(all_tokens("---"), vec![minus.clone(), minus.clone(), minus.clone()]);
    assert_eq!(all_tokens("----"), vec![separator.clone()]);
    assert_eq!(all_tokens("-----"), vec![separator.clone()]);
    assert_eq!(all_tokens("---- -"), vec![separator.clone(), minus.clone()]);
}

#[test]
fn each_minus_of_a_run_has_its_own_place() {
    let minus = Token(Symbol::Minus, None);
    assert_eq!(
        all_items(" ---x"),
        vec![
            Item(minus.clone(), Location(1, 2)),
            Item(minus.clone(), Location(1, 3)),
            Item(minus.clone(), Location(1, 4)),
            Item(word(Symbol::Identifier, "x"), Location(1, 5)),
        ]
    );
}

#[test]
fn adjacent_operator_characters_are_one_sequence() {
    assert_eq!(all_tokens("<="), vec![word(Symbol::OperatorSequence, "<=")]);
    assert_eq!(all_tokens("||"), vec![word(Symbol::OperatorSequence, "||")]);
    assert_eq!(all_tokens("~=,@%"), vec![word(Symbol::OperatorSequence, "~=,@%")]);
    assert_eq!(
        all_tokens("a>=b"),
        vec![
            word(Symbol::Identifier, "a"),
            word(Symbol::OperatorSequence, ">="),
            word(Symbol::Identifier, "b"),
        ]
    );
}

#[test]
fn minus_is_no_operator_character() {
    assert_eq!(
        all_tokens("<-"),
        vec![Token(Symbol::Less, None), Token(Symbol::Minus, None)]
    );
}

#[test]
fn primitive_is_the_only_reserved_word() {
    assert_eq!(all_tokens("primitive"), vec![Token(Symbol::Primitive, None)]);
    assert_eq!(all_tokens("primitives"), vec![word(Symbol::Identifier, "primitives")]);
    assert_eq!(all_tokens("Primitive"), vec![word(Symbol::Identifier, "Primitive")]);
    assert_eq!(all_tokens("primitive:"), vec![word(Symbol::Keyword, "primitive:")]);
    assert_eq!(all_tokens("nil"), vec![word(Symbol::Identifier, "nil")]);
    assert_eq!(all_tokens("self"), vec![word(Symbol::Identifier, "self")]);
}

#[test]
fn keyword_with_an_equals_sign_behind_it() {
    assert_eq!(
        all_tokens("foo:=1"),
        vec![word(Symbol::Keyword, "foo:"), Token(Symbol::Equal, None), word(Symbol::Integer, "1")]
    );
    assert_eq!(
        all_tokens("foo :=1"),
        vec![
            word(Symbol::Identifier, "foo"),
            Token(Symbol::Assign, None),
            word(Symbol::Integer, "1"),
        ]
    );
}

#[test]
fn keyword_sequence_takes_digits_but_no_underscore() {
    assert_eq!(all_tokens("a:b2:"), vec![word(Symbol::KeywordSequence, "a:b2:")]);
    assert_eq!(all_tokens("a:b_c"), vec![word(Symbol::KeywordSequence, "a:b")]);
    assert_eq!(all_tokens("a_1:b"), vec![word(Symbol::KeywordSequence, "a_1:b")]);
    assert_eq!(
        all_tokens("a: b"),
        vec![word(Symbol::Keyword, "a:"), word(Symbol::Identifier, "b")]
    );
    assert_eq!(
        all_tokens("a:1"),
        vec![word(Symbol::Keyword, "a:"), word(Symbol::Integer, "1")]
    );
}

#[test]
fn string_without_its_closing_quote_ends_with_the_input() {
    assert_eq!(all_tokens("'abc"), vec![word(Symbol::String, "abc")]);
    assert_eq!(all_tokens("'"), vec![word(Symbol::String, "")]);
    assert_eq!(all_tokens("''x"), vec![word(Symbol::String, ""), word(Symbol::Identifier, "x")]);
}

#[test]
fn string_keeps_all_between_its_quotes() {
    assert_eq!(all_tokens("'a \"b\"\n-- é'"), vec![word(Symbol::String, "a \"b\"\n-- é")]);
}

#[test]
fn comments_side_by_side_are_both_skipped() {
    assert_eq!(all_tokens("\"a\"\"b\"c"), vec![word(Symbol::Identifier, "c")]);
    assert_eq!(all_tokens("c \"never closed"), vec![word(Symbol::Identifier, "c")]);
    assert_eq!(all_tokens("\"it's\" x"), vec![word(Symbol::Identifier, "x")]);
}

#[test]
fn location_counts_lines_and_columns_from_one() {
    assert_eq!(
        all_items("a\nbc\n\n  d"),
        vec![
            Item(word(Symbol::Identifier, "a"), Location(1, 1)),
            Item(word(Symbol::Identifier, "bc"), Location(2, 1)),
            Item(word(Symbol::Identifier, "d"), Location(4, 3)),
        ]
    );
}

#[test]
fn tokens_do_not_depend_on_the_chunks() {
    let source = "Hello = ( run = ( 'Hello, World' println. ^ 1.5 + 12. ---- ) )";
    let whole = all_items(source);
    for cut in [1usize, 3, 7, 20] {
        let chars: Vec<char> = source.chars().collect();
        let chunks: Vec<String> =
            chars.chunks(cut).map(|chunk| chunk.iter().collect::<String>()).collect();
        let mut lexer = Lexer::from_chunks(&chunks);
        let mut items = Vec::new();
        while let Some(item) = lexer.next() {
            items.push(item);
        }
        assert_eq!(items, whole);
    }
    let lines = vec![
        "a := 1.\n".to_string(),
        "".to_string(),
        "b := 'x\n".to_string(),
        "y'".to_string(),
    ];
    let mut lexer = Lexer::from_chunks(&lines);
    let mut items = Vec::new();
    while let Some(item) = lexer.next() {
        items.push(item);
    }
    assert_eq!(items, all_items("a := 1.\nb := 'x\ny'"));
}

#[test]
fn item_equals_token_whatever_its_place() {
    let item = Item(word(Symbol::Identifier, "a"), Location(3, 4));
    assert!(item == word(Symbol::Identifier, "a"));
    assert!(!(item == word(Symbol::Identifier, "b")));
    assert!(!(item == word(Symbol::Keyword, "a")));
    assert!(item == Item(word(Symbol::Identifier, "a"), Location(3, 4)));
    assert!(item != Item(word(Symbol::Identifier, "a"), Location(3, 5)));
    assert_eq!(item.clone(), item);
}

#[test]
fn token_equals_symbol_whatever_its_text() {
    let token = word(Symbol::Identifier, "a");
    assert!(token == Symbol::Identifier);
    assert!(!(token == Symbol::Keyword));
    assert!(token == word(Symbol::Identifier, "a"));
    assert!(token != word(Symbol::Identifier, "b"));
    assert!(token != Token(Symbol::Identifier, None));
    assert_eq!(Token::from(Symbol::Minus), Token(Symbol::Minus, None));
    assert_eq!(token.clone(), token);
    assert_eq!(token.into_lexeme(), "a");
    assert_eq!(Token(Symbol::Minus, None).into_lexeme(), "");
}

#[test]
fn character_classes() {
    for c in "~&|*/\\+=><,@%".chars() {
        assert!(is_operator(c));
    }
    assert!(!is_operator('-'));
    assert!(!is_operator(':'));
    assert!(is_identifier('a') && is_identifier('Z') && is_identifier('0') && is_identifier('_'));
    assert!(!is_identifier('é') && !is_identifier(':') && !is_identifier('-'));
    assert!(is_letter('q') && !is_letter('1') && !is_letter('_'));
    assert!(is_digit('7') && !is_digit('a'));
    for c in ['\t', '\n', '\r', ' ', '\u{a0}', '\u{2003}', '\u{3000}'] {
        assert!(is_whitespace(c));
        assert_eq!(is_whitespace(c), c.is_whitespace());
    }
    for code in 0u32..0x3100 {
        if let Some(c) = char::from_u32(code) {
            assert_eq!(is_whitespace(c), c.is_whitespace());
        }
    }
}

#[test]
fn symbol_names() {
    assert_eq!(Symbol::Double.as_str(), "Double");
    assert_eq!(Symbol::OperatorSequence.as_str(), "OperatorSequence");
    assert_eq!(format!("{:?}", Symbol::KeywordSequence), Symbol::KeywordSequence.as_str());
}
