//! The shape of every tree that the parser reads: names, selectors and
//! returns stand where they can stand.

use crate::compiler::ast::{ClassView, ExpressionView, MethodView};
use crate::compiler::grammar::{
    assignments, binary_message, binary_messages, binary_operator_text, binary_selector,
    block_body, block_parameters, class, colon_names, expression, formula, identifiers, input_from,
    is_binary_operator, keyword_message, keyword_parts, keyword_pattern_rest,
    lemma_binary_messages_step, lemma_block_body_step, lemma_expression_step, lemma_formula_step,
    lemma_keyword_message, lemma_keyword_parts_step, lemma_messages_step, lemma_method_advances,
    lemma_methods_step, lemma_nested_block_step, lemma_nested_term_step, lemma_operand_step,
    lemma_primary_step, lemma_statement_step, locals, members, messages, method, method_body,
    methods, nested_block, nested_term, number, operand, pattern, primary, sides, statement,
    superclass_name, symbol_name, unary_messages, Input,
};
use crate::compiler::lexical::{
    has_no_quote, is_decimal, is_name, is_word, keywords_from, lemma_tokens_well_formed, letter,
    well_formed, CharClass,
};
use crate::compiler::token::Symbol;
use vstd::prelude::*;

verus! {

/// The number of colons in a text.
pub open spec fn colons(text: Seq<char>) -> nat
    decreases text.len(),
{
    if text.len() == 0 {
        0
    } else {
        colons(text.drop_last()) + if text.last() == ':' {
            1nat
        } else {
            0nat
        }
    }
}

/// Whether a text starts with a keyword, a name with the colon at `k` behind
/// it.
pub open spec fn keyword_ends(text: Seq<char>, k: int) -> bool {
    0 < k < text.len() && text[k] == ':' && is_name(text.take(k)) && letter(text[0])
}

/// Whether a text is `arity` keywords one behind the other, each a name
/// with a colon behind it.
pub open spec fn keyword_selector(text: Seq<char>, arity: nat) -> bool
    decreases arity,
{
    if arity == 0 {
        text.len() == 0
    } else {
        exists|k: int| #[trigger]
            keyword_ends(text, k) && keyword_selector(text.skip(k + 1), (arity - 1) as nat)
    }
}

/// Whether all texts of a list are names that identifiers can have.
pub open spec fn all_names(names: Seq<Seq<char>>) -> bool {
    forall|i: int| 0 <= i < names.len() ==> is_word(#[trigger] names[i])
}

/// Whether a text is the selector of a binary message: an operator
/// character or a minus sign, or two operator characters or more.
pub open spec fn is_operator_text(text: Seq<char>) -> bool {
    &&& text.len() >= 1
    &&& text.len() == 1 ==> CharClass::Operator.has(text[0]) || text[0] == '-'
    &&& text.len() >= 2 ==> forall|i: int|
        0 <= i < text.len() ==> CharClass::Operator.has(#[trigger] text[i])
}

/// Whether an expression has the shape of what the parser reads where it
/// reads an expression: variables, parameters and unary selectors are names,
/// no variable has the name of a literal, binary selectors are operators, each
/// keyword message has one argument at least and a selector of as many
/// keywords as it has arguments, no integer is below the negative of the
/// largest, and nothing is returned but by a statement of a block.
pub open spec fn fits(expression: ExpressionView) -> bool
    decreases expression, 0nat,
{
    match expression {
        ExpressionView::Assignment { variables, value } => {
            &&& variables.len() >= 1
            &&& all_names(variables)
            &&& fits(*value)
        },
        ExpressionView::BinaryMessage { message, left, right } => {
            &&& is_operator_text(message)
            &&& fits(*left)
            &&& fits(*right)
        },
        ExpressionView::Block { parameters, locals, body } => {
            &&& all_names(parameters)
            &&& all_names(locals)
            &&& forall|i: int| 0 <= i < body.len() ==> statement_fits(#[trigger] body[i])
        },
        ExpressionView::KeywordMessage { message, receiver, parameters } => {
            &&& parameters.len() >= 1
            &&& keyword_selector(message, parameters.len())
            &&& fits(*receiver)
            &&& forall|i: int| 0 <= i < parameters.len() ==> fits(#[trigger] parameters[i])
        },
        ExpressionView::LiteralDouble(value) => is_decimal(value.lexeme),
        ExpressionView::LiteralInteger(value) => value > i64::MIN,
        ExpressionView::LiteralString(value) => has_no_quote(value),
        ExpressionView::LiteralSymbol(value) => has_no_quote(value),
        ExpressionView::Return(value) => false,
        ExpressionView::UnaryMessage { message, receiver } => is_word(message) && fits(*receiver),
        ExpressionView::Variable(name) => is_word(name) && name != "nil"@ && name != "true"@
            && name != "false"@,
        _ => true,
    }
}

/// Whether a statement has the shape of what the parser reads where it reads
/// a statement: an expression that fits, or one that is returned.
pub open spec fn statement_fits(statement: ExpressionView) -> bool
    decreases statement, 1nat,
{
    match statement {
        ExpressionView::Return(value) => fits(*value),
        _ => fits(statement),
    }
}

/// Whether all statements of a list fit.
pub open spec fn all_fit(statements: Seq<ExpressionView>) -> bool {
    forall|i: int| 0 <= i < statements.len() ==> statement_fits(#[trigger] statements[i])
}

/// Whether all expressions of a list fit.
pub open spec fn arguments_fit(arguments: Seq<ExpressionView>) -> bool {
    forall|i: int| 0 <= i < arguments.len() ==> fits(#[trigger] arguments[i])
}

/// Whether a selector and parameters have the shape of the pattern of a
/// method: a name without parameters, an operator with one parameter, or as
/// many keywords as there are parameters. The parameters are names.
pub open spec fn pattern_fits(name: Seq<char>, parameters: Seq<Seq<char>>) -> bool {
    &&& name.len() >= 1
    &&& all_names(parameters)
    &&& if parameters.len() == 0 {
        is_word(name)
    } else if name.last() == ':' {
        keyword_selector(name, parameters.len())
    } else {
        parameters.len() == 1 && is_operator_text(name)
    }
}

/// Whether a method has the shape of what the parser reads: its selector and
/// its parameters are those of a pattern, its variables are names, and its
/// statements fit.
pub open spec fn method_fits(method: MethodView) -> bool {
    match method {
        MethodView::Primitive { name, parameters } => pattern_fits(name, parameters),
        MethodView::Native { name, parameters, locals, body } => {
            &&& pattern_fits(name, parameters)
            &&& all_names(locals)
            &&& all_fit(body)
        },
    }
}

/// Whether all methods of a table fit.
pub open spec fn methods_fit(methods: Map<Seq<char>, MethodView>) -> bool {
    forall|selector: Seq<char>| #[trigger]
        methods.contains_key(selector) ==> method_fits(methods[selector])
}

/// Whether a class has the shape of what the parser reads: its name and the
/// name of the class above it are not empty, its variables are names, and its
/// methods fit.
pub open spec fn class_fits(class: ClassView) -> bool {
    &&& is_word(class.name)
    &&& is_word(class.superclass)
    &&& all_names(class.instance_variables)
    &&& all_names(class.class_variables)
    &&& methods_fit(class.instance_methods)
    &&& methods_fit(class.class_methods)
}

/// Whether all tokens of an input have the shape that the lexer gives them.
pub open spec fn tokens_well_formed(input: Input) -> bool {
    forall|i: int|
        0 <= i < input.tokens.items.len() ==> well_formed(#[trigger] input.tokens.items[i].token)
}

/// The colons of two texts are the colons of the one behind the other.
pub proof fn lemma_colons_add(first: Seq<char>, second: Seq<char>)
    ensures
        colons(first + second) == colons(first) + colons(second),
    decreases second.len(),
{
    if second.len() == 0 {
        assert(first + second =~= first);
    } else {
        assert((first + second).drop_last() =~= first + second.drop_last());
        lemma_colons_add(first, second.drop_last());
    }
}

/// A name has no colon.
pub proof fn lemma_name_has_no_colon(name: Seq<char>)
    requires
        forall|i: int| 0 <= i < name.len() ==> CharClass::Identifier.has(#[trigger] name[i]),
    ensures
        colons(name) == 0,
    decreases name.len(),
{
    if name.len() > 0 {
        assert(CharClass::Identifier.has(name[name.len() - 1]));
        lemma_name_has_no_colon(name.drop_last());
    }
}

/// A selector of `arity` keywords has `arity` colons, the last of which is its
/// last character.
pub proof fn lemma_selector_colons(text: Seq<char>, arity: nat)
    requires
        keyword_selector(text, arity),
    ensures
        colons(text) == arity,
        arity >= 1 ==> text.len() >= 2 && text.last() == ':',
    decreases arity,
{
    if arity > 0 {
        let k = choose|k: int| #[trigger]
            keyword_ends(text, k) && keyword_selector(text.skip(k + 1), (arity - 1) as nat);
        let name = text.take(k);
        let rest = text.skip(k + 1);
        lemma_selector_colons(rest, (arity - 1) as nat);
        lemma_name_has_no_colon(name);
        assert(text =~= (name + seq![':']) + rest);
        lemma_colons_add(name + seq![':'], rest);
        lemma_colons_add(name, seq![':']);
        assert(colons(seq![':']) == 1) by {
            assert(seq![':'].drop_last() =~= Seq::<char>::empty());
            assert(seq![':'].last() == ':');
            assert(colons(Seq::<char>::empty()) == 0);
            reveal_with_fuel(colons, 2);
        }
        if arity > 1 {
            assert(text.last() == rest.last());
        } else {
            assert(rest.len() == 0);
        }
    }
}

/// A keyword before a selector of keywords is a selector of one keyword more.
pub proof fn lemma_keyword_before_selector(keyword: Seq<char>, rest: Seq<char>, arity: nat)
    requires
        keyword.len() >= 2,
        keyword.last() == ':',
        is_name(keyword.drop_last()),
        letter(keyword[0]),
        keyword_selector(rest, arity),
    ensures
        keyword_selector(keyword + rest, arity + 1),
{
    let text = keyword + rest;
    let k = keyword.len() - 1;
    assert(text[k] == ':');
    assert(text.take(k) =~= keyword.drop_last());
    assert(text.skip(k + 1) =~= rest);
    assert(keyword_ends(text, k));
}

/// The text of an identifier among well-formed tokens is a name that
/// starts with a letter and is not the reserved word.
pub proof fn lemma_identifier_is_name(input: Input, at: nat)
    requires
        tokens_well_formed(input),
        input.holds(at, Symbol::Identifier),
    ensures
        is_word(input.token(at).lexeme()),
{
    assert(well_formed(input.tokens.items[at as int].token));
}

/// The text of a keyword among well-formed tokens is a name with a colon
/// behind it.
pub proof fn lemma_keyword_is_name(input: Input, at: nat)
    requires
        tokens_well_formed(input),
        input.holds(at, Symbol::Keyword),
    ensures
        input.token(at).lexeme().len() >= 2,
        input.token(at).lexeme().last() == ':',
        is_name(input.token(at).lexeme().drop_last()),
        letter(input.token(at).lexeme()[0]),
{
    assert(well_formed(input.tokens.items[at as int].token));
}

/// The selector of a binary operator among well-formed tokens is an
/// operator.
pub proof fn lemma_operator_is_not_empty(input: Input, at: nat)
    requires
        tokens_well_formed(input),
        at < input.len(),
        binary_selector(input.token(at)) is Some,
    ensures
        is_operator_text(binary_selector(input.token(at))->0),
        binary_selector(input.token(at))->0.last() != ':',
{
    assert(well_formed(input.tokens.items[at as int].token));
    let symbol = input.token(at).symbol;
    if is_binary_operator(symbol) {
        reveal_strlit("&");
        reveal_strlit("@");
        reveal_strlit(",");
        reveal_strlit("/");
        reveal_strlit("=");
        reveal_strlit("<");
        reveal_strlit("-");
        reveal_strlit("\\");
        reveal_strlit(">");
        reveal_strlit("~");
        reveal_strlit("|");
        reveal_strlit("%");
        reveal_strlit("+");
        reveal_strlit("*");
        assert(binary_operator_text(symbol).len() == 1);
        let c = binary_operator_text(symbol)[0];
        assert(CharClass::Operator.has(c) || c == '-');
    } else {
        let text = input.token(at).lexeme();
        assert(CharClass::Operator.has(text[text.len() - 1]));
    }
}

/// The name of a symbol literal among well-formed tokens has no single
/// quote.
pub proof fn lemma_symbol_has_no_quote(input: Input, at: nat)
    requires
        tokens_well_formed(input),
        at < input.len(),
        symbol_name(input.token(at)) is Some,
    ensures
        has_no_quote(symbol_name(input.token(at))->0),
{
    let token = input.token(at);
    assert(well_formed(input.tokens.items[at as int].token));
    let name = symbol_name(token)->0;
    if is_binary_operator(token.symbol) {
        reveal_strlit("&");
        reveal_strlit("@");
        reveal_strlit(",");
        reveal_strlit("/");
        reveal_strlit("=");
        reveal_strlit("<");
        reveal_strlit("-");
        reveal_strlit("\\");
        reveal_strlit(">");
        reveal_strlit("~");
        reveal_strlit("|");
        reveal_strlit("%");
        reveal_strlit("+");
        reveal_strlit("*");
        assert(name.len() == 1);
        assert(name[0] != '\'');
    } else if token.symbol == Symbol::Identifier {
        assert forall|i: int| 0 <= i < name.len() implies #[trigger] name[i] != '\'' by {
            assert(CharClass::Identifier.has(name[i]));
        }
    } else if token.symbol == Symbol::Keyword {
        let stem = name.drop_last();
        assert forall|i: int| 0 <= i < name.len() implies #[trigger] name[i] != '\'' by {
            if i < name.len() - 1 {
                assert(CharClass::Identifier.has(stem[i]));
            }
        }
    } else if token.symbol == Symbol::KeywordSequence {
        let k = choose|k: int| keywords_from(name, k);
        let stem = name.take(k);
        assert forall|i: int| 0 <= i < name.len() implies #[trigger] name[i] != '\'' by {
            if i < k {
                assert(CharClass::Identifier.has(stem[i]));
            } else if i > k {
                assert(CharClass::KeywordPart.has(name[i]));
            }
        }
    } else if token.symbol == Symbol::OperatorSequence {
        assert forall|i: int| 0 <= i < name.len() implies #[trigger] name[i] != '\'' by {
            assert(CharClass::Operator.has(name[i]));
        }
    }
}

/// Identifiers that follow each other are names.
pub proof fn lemma_identifiers_are_names(input: Input, at: nat)
    requires
        tokens_well_formed(input),
    ensures
        all_names(identifiers(input, at)),
    decreases input.left(at),
{
    if input.holds(at, Symbol::Identifier) {
        lemma_identifier_is_name(input, at);
        lemma_identifiers_are_names(input, at + 1);
        let names = identifiers(input, at);
        let others = identifiers(input, at + 1);
        assert forall|i: int| 0 <= i < names.len() implies is_word(#[trigger] names[i]) by {
            if i > 0 {
                assert(names[i] == others[i - 1]);
            }
        }
    }
}

/// Local variables are names.
pub proof fn lemma_locals_are_names(input: Input, at: nat)
    requires
        tokens_well_formed(input),
    ensures
        locals(input, at) matches Ok((names, _)) ==> all_names(names),
{
    lemma_identifiers_are_names(input, at + 1);
}

/// The parameters of a block are names.
pub proof fn lemma_colon_names_are_names(input: Input, at: nat)
    requires
        tokens_well_formed(input),
    ensures
        colon_names(input, at) matches Ok((names, _)) ==> all_names(names),
    decreases input.left(at),
{
    if input.holds(at, Symbol::Colon) && input.holds(at + 1, Symbol::Identifier) {
        lemma_identifier_is_name(input, at + 1);
        lemma_colon_names_are_names(input, at + 2);
        match colon_names(input, at + 2) {
            Ok((others, _)) => {
                let names = seq![input.token(at + 1).lexeme()] + others;
                assert forall|i: int| 0 <= i < names.len() implies is_word(
                    #[trigger] names[i],
                ) by {
                    if i > 0 {
                        assert(names[i] == others[i - 1]);
                    }
                }
            },
            Err(_) => {},
        }
    }
}

/// The variables of an assignment are names.
pub proof fn lemma_assignments_are_names(input: Input, at: nat)
    requires
        tokens_well_formed(input),
    ensures
        assignments(input, at) matches Ok((names, _)) ==> all_names(names),
    decreases input.left(at),
{
    if input.holds(at + 1, Symbol::Assign) && input.holds(at, Symbol::Identifier) {
        lemma_identifier_is_name(input, at);
        lemma_assignments_are_names(input, at + 2);
        match assignments(input, at + 2) {
            Ok((others, _)) => {
                let names = seq![input.token(at).lexeme()] + others;
                assert forall|i: int| 0 <= i < names.len() implies is_word(
                    #[trigger] names[i],
                ) by {
                    if i > 0 {
                        assert(names[i] == others[i - 1]);
                    }
                }
            },
            Err(_) => {},
        }
    }
}

/// The keywords of a pattern are a selector of as many keywords as there
/// are parameters, and the parameters are names.
pub proof fn lemma_keyword_pattern_rest_is_named(input: Input, at: nat)
    requires
        tokens_well_formed(input),
    ensures
        keyword_pattern_rest(input, at) matches Ok(((selector, parameters), _)) ==> all_names(
            parameters,
        ) && keyword_selector(selector, parameters.len()),
    decreases input.left(at),
{
    if input.holds(at, Symbol::Keyword) && input.holds(at + 1, Symbol::Identifier) {
        lemma_keyword_is_name(input, at);
        lemma_identifier_is_name(input, at + 1);
        lemma_keyword_pattern_rest_is_named(input, at + 2);
        match keyword_pattern_rest(input, at + 2) {
            Ok(((rest, others), _)) => {
                let names = seq![input.token(at + 1).lexeme()] + others;
                assert forall|i: int| 0 <= i < names.len() implies is_word(
                    #[trigger] names[i],
                ) by {
                    if i > 0 {
                        assert(names[i] == others[i - 1]);
                    }
                }
                lemma_keyword_before_selector(input.token(at).lexeme(), rest, others.len());
            },
            Err(_) => {},
        }
    } else {
        assert(keyword_selector(Seq::<char>::empty(), 0));
    }
}

/// The selector and the parameters that the parser reads as a pattern have
/// the shape of a pattern.
pub proof fn lemma_pattern_is_named(input: Input, at: nat)
    requires
        tokens_well_formed(input),
    ensures
        pattern(input, at) matches Ok(((name, parameters), _)) ==> pattern_fits(name, parameters),
{
    if input.holds(at, Symbol::Identifier) {
        lemma_identifier_is_name(input, at);
    } else if input.holds(at, Symbol::Keyword) {
        lemma_keyword_is_name(input, at);
        if input.holds(at + 1, Symbol::Identifier) {
            lemma_identifier_is_name(input, at + 1);
            lemma_keyword_pattern_rest_is_named(input, at + 2);
            match keyword_pattern_rest(input, at + 2) {
                Ok(((rest, others), _)) => {
                    let names = seq![input.token(at + 1).lexeme()] + others;
                    assert forall|i: int| 0 <= i < names.len() implies is_word(
                        #[trigger] names[i],
                    ) by {
                        if i > 0 {
                            assert(names[i] == others[i - 1]);
                        }
                    }
                    let keyword = input.token(at).lexeme();
                    lemma_keyword_before_selector(keyword, rest, others.len());
                    lemma_selector_colons(keyword + rest, others.len() + 1);
                },
                Err(_) => {},
            }
        }
    } else if at < input.len() && binary_selector(input.token(at)) is Some {
        lemma_operator_is_not_empty(input, at);
        if input.holds(at + 1, Symbol::Identifier) {
            lemma_identifier_is_name(input, at + 1);
            let names = seq![input.token(at + 1).lexeme()];
            assert(all_names(names));
        }
    }
}

/// Unary messages to a receiver that fits give an expression that fits.
pub proof fn lemma_unary_messages_fit(input: Input, at: nat, receiver: ExpressionView)
    requires
        tokens_well_formed(input),
        fits(receiver),
    ensures
        unary_messages(input, at, receiver) matches Ok((value, _)) ==> fits(value),
    decreases input.left(at),
{
    if input.holds(at, Symbol::Identifier) {
        lemma_identifier_is_name(input, at);
        lemma_unary_messages_fit(
            input,
            at + 1,
            ExpressionView::UnaryMessage {
                message: input.token(at).lexeme(),
                receiver: Box::new(receiver),
            },
        );
    }
}

/// The statements that the parser reads fit.
pub proof fn lemma_block_body_fits(input: Input, at: nat)
    requires
        tokens_well_formed(input),
    ensures
        block_body(input, at) matches Ok((body, _)) ==> all_fit(body),
    decreases input.left(at), 6nat,
{
    lemma_block_body_step(input, at);
    if !(input.holds(at, Symbol::EndTerm) || input.holds(at, Symbol::EndBlock)) && at
        < input.len() {
        lemma_statement_fits(input, at);
        match statement(input, at) {
            Ok((first, count)) => {
                if input.holds(at + count, Symbol::Period) {
                    lemma_block_body_fits(input, at + count + 1);
                    match block_body(input, at + count + 1) {
                        Ok((others, _)) => {
                            let body = seq![first] + others;
                            assert forall|i: int| 0 <= i < body.len() implies statement_fits(
                                #[trigger] body[i],
                            ) by {
                                if i > 0 {
                                    assert(body[i] == others[i - 1]);
                                }
                            }
                        },
                        Err(_) => {},
                    }
                }
            },
            Err(_) => {},
        }
    }
}

/// The statement that the parser reads fits.
pub proof fn lemma_statement_fits(input: Input, at: nat)
    requires
        tokens_well_formed(input),
    ensures
        statement(input, at) matches Ok((value, _)) ==> statement_fits(value),
    decreases input.left(at), 5nat,
{
    lemma_statement_step(input, at);
    if input.holds(at, Symbol::Exit) {
        lemma_expression_fits(input, at + 1);
    } else {
        lemma_expression_fits(input, at);
    }
}

/// The expression that the parser reads fits.
pub proof fn lemma_expression_fits(input: Input, at: nat)
    requires
        tokens_well_formed(input),
    ensures
        expression(input, at) matches Ok((value, _)) ==> fits(value),
    decreases input.left(at), 4nat,
{
    lemma_expression_step(input, at);
    if input.holds(at + 1, Symbol::Assign) {
        if input.holds(at, Symbol::Identifier) {
            lemma_identifier_is_name(input, at);
            lemma_assignments_are_names(input, at + 2);
            match assignments(input, at + 2) {
                Ok((others, count)) => {
                    lemma_expression_fits(input, at + 2 + count);
                    let names = seq![input.token(at).lexeme()] + others;
                    assert forall|i: int| 0 <= i < names.len() implies is_word(
                        #[trigger] names[i],
                    ) by {
                        if i > 0 {
                            assert(names[i] == others[i - 1]);
                        }
                    }
                },
                Err(_) => {},
            }
        }
    } else if !input.broken(at + 1) {
        lemma_primary_fits(input, at);
        match primary(input, at) {
            Ok((receiver, count)) => {
                lemma_messages_fit(input, at + count, receiver);
            },
            Err(_) => {},
        }
    }
}

/// The messages that the parser reads, sent to a receiver that fits, fit.
pub proof fn lemma_messages_fit(input: Input, at: nat, receiver: ExpressionView)
    requires
        tokens_well_formed(input),
        fits(receiver),
    ensures
        messages(input, at, receiver) matches Ok((value, _)) ==> fits(value),
    decreases input.left(at), 3nat,
{
    lemma_messages_step(input, at, receiver);
    lemma_unary_messages_fit(input, at, receiver);
    match unary_messages(input, at, receiver) {
        Ok((first, count)) => {
            lemma_binary_messages_fit(input, at + count, first);
            match binary_messages(input, at + count, first) {
                Ok((second, more)) => {
                    if input.holds(at + count + more, Symbol::Keyword) {
                        lemma_keyword_message_fits(input, at + count + more, second);
                    }
                },
                Err(_) => {},
            }
        },
        Err(_) => {},
    }
}

/// The binary messages that the parser reads, sent to a receiver that fits,
/// fit.
pub proof fn lemma_binary_messages_fit(input: Input, at: nat, left: ExpressionView)
    requires
        tokens_well_formed(input),
        fits(left),
    ensures
        binary_messages(input, at, left) matches Ok((value, _)) ==> fits(value),
    decreases input.left(at), 0nat,
{
    lemma_binary_messages_step(input, at, left);
    reveal(binary_message);
    if at < input.len() && binary_selector(input.token(at)) is Some {
        lemma_operator_is_not_empty(input, at);
        lemma_operand_fits(input, at + 1);
        match operand(input, at + 1) {
            Ok((right, count)) => {
                lemma_binary_messages_fit(
                    input,
                    at + 1 + count,
                    ExpressionView::BinaryMessage {
                        message: binary_selector(input.token(at))->0,
                        left: Box::new(left),
                        right: Box::new(right),
                    },
                );
            },
            Err(_) => {},
        }
    }
}

/// The keywords that the parser reads are a selector of as many keywords as
/// they have arguments, and the arguments fit.
pub proof fn lemma_keyword_parts_fit(input: Input, at: nat)
    requires
        tokens_well_formed(input),
    ensures
        keyword_parts(input, at) matches Ok(((selector, arguments), _)) ==> {
            &&& keyword_selector(selector, arguments.len())
            &&& arguments_fit(arguments)
            &&& input.holds(at, Symbol::Keyword) ==> arguments.len() >= 1
        },
    decreases input.left(at), 0nat,
{
    lemma_keyword_parts_step(input, at);
    if input.holds(at, Symbol::Keyword) {
        lemma_formula_fits(input, at + 1);
        match formula(input, at + 1) {
            Ok((argument, count)) => {
                lemma_keyword_parts_fit(input, at + 1 + count);
                match keyword_parts(input, at + 1 + count) {
                    Ok(((rest, others), _)) => {
                        let keyword = input.token(at).lexeme();
                        lemma_keyword_is_name(input, at);
                        lemma_keyword_before_selector(keyword, rest, others.len());
                        let arguments = seq![argument] + others;
                        assert forall|i: int| 0 <= i < arguments.len() implies fits(
                            #[trigger] arguments[i],
                        ) by {
                            if i > 0 {
                                assert(arguments[i] == others[i - 1]);
                            }
                        }
                    },
                    Err(_) => {},
                }
            },
            Err(_) => {},
        }
    } else {
        assert(keyword_selector(Seq::<char>::empty(), 0));
    }
}

/// The keyword message that the parser reads where a keyword stands, sent to
/// a receiver that fits, fits.
pub proof fn lemma_keyword_message_fits(input: Input, at: nat, receiver: ExpressionView)
    requires
        tokens_well_formed(input),
        fits(receiver),
        input.holds(at, Symbol::Keyword),
    ensures
        keyword_message(input, at, receiver) matches Ok((value, _)) ==> fits(value),
    decreases input.left(at), 1nat,
{
    lemma_keyword_message(input, at, receiver);
    lemma_keyword_parts_fit(input, at);
}

/// The argument of a keyword that the parser reads fits.
pub proof fn lemma_formula_fits(input: Input, at: nat)
    requires
        tokens_well_formed(input),
    ensures
        formula(input, at) matches Ok((value, _)) ==> fits(value),
    decreases input.left(at), 3nat,
{
    lemma_formula_step(input, at);
    lemma_operand_fits(input, at);
    match operand(input, at) {
        Ok((first, count)) => {
            lemma_binary_messages_fit(input, at + count, first);
        },
        Err(_) => {},
    }
}

/// The argument of a binary message that the parser reads fits.
pub proof fn lemma_operand_fits(input: Input, at: nat)
    requires
        tokens_well_formed(input),
    ensures
        operand(input, at) matches Ok((value, _)) ==> fits(value),
    decreases input.left(at), 2nat,
{
    lemma_operand_step(input, at);
    lemma_primary_fits(input, at);
    match primary(input, at) {
        Ok((first, count)) => {
            lemma_unary_messages_fit(input, at + count, first);
        },
        Err(_) => {},
    }
}

/// The primary expression that the parser reads fits.
pub proof fn lemma_primary_fits(input: Input, at: nat)
    requires
        tokens_well_formed(input),
    ensures
        primary(input, at) matches Ok((value, _)) ==> fits(value),
    decreases input.left(at), 1nat,
{
    lemma_primary_step(input, at);
    if at < input.len() {
        assert(well_formed(input.tokens.items[at as int].token));
    }
    if input.holds(at, Symbol::Identifier) {
        lemma_identifier_is_name(input, at);
    } else if input.holds(at, Symbol::String) {
        assert(primary(input, at) matches Ok((value, _)) ==> fits(value));
    } else if input.holds(at, Symbol::Integer) || input.holds(at, Symbol::Double) {
        lemma_number_fits(input, at, false);
    } else if input.holds(at, Symbol::Pound) {
        if at + 1 < input.len() && symbol_name(input.token(at + 1)) is Some {
            lemma_symbol_has_no_quote(input, at + 1);
        }
        assert(primary(input, at) matches Ok((value, _)) ==> fits(value));
    } else if input.holds(at, Symbol::Minus) {
        lemma_number_fits(input, at + 1, true);
    } else if input.holds(at, Symbol::NewBlock) {
        lemma_nested_block_fits(input, at);
    } else if input.holds(at, Symbol::NewTerm) {
        lemma_nested_term_fits(input, at);
    }
}

/// The number that the parser reads fits.
pub proof fn lemma_number_fits(input: Input, at: nat, negative: bool)
    requires
        tokens_well_formed(input),
    ensures
        number(input, at, negative) matches Ok((value, _)) ==> fits(value),
{
    if at < input.len() {
        assert(well_formed(input.tokens.items[at as int].token));
    }
}

/// The block that the parser reads fits.
pub proof fn lemma_nested_block_fits(input: Input, at: nat)
    requires
        tokens_well_formed(input),
    ensures
        nested_block(input, at) matches Ok((value, _)) ==> fits(value),
    decreases input.left(at), 0nat,
{
    lemma_nested_block_step(input, at);
    if input.expect(at, Symbol::NewBlock) is Ok {
        lemma_colon_names_are_names(input, at + 1);
        match block_parameters(input, at + 1) {
            Ok((parameters, first)) => {
                lemma_locals_are_names(input, at + 1 + first);
                match locals(input, at + 1 + first) {
                    Ok((variables, second)) => {
                        lemma_block_body_fits(input, at + 1 + first + second);
                    },
                    Err(_) => {},
                }
            },
            Err(_) => {},
        }
    }
}

/// The expression in round brackets that the parser reads fits.
pub proof fn lemma_nested_term_fits(input: Input, at: nat)
    requires
        tokens_well_formed(input),
    ensures
        nested_term(input, at) matches Ok((value, _)) ==> fits(value),
    decreases input.left(at), 0nat,
{
    lemma_nested_term_step(input, at);
    if input.expect(at, Symbol::NewTerm) is Ok {
        lemma_expression_fits(input, at + 1);
    }
}

/// The method that the parser reads fits.
pub proof fn lemma_method_fits(input: Input, at: nat)
    requires
        tokens_well_formed(input),
    ensures
        method(input, at) matches Ok(((name, method), _)) ==> method_fits(method) && name == (
        match method {
            MethodView::Primitive { name, .. } => name,
            MethodView::Native { name, .. } => name,
        }),
{
    reveal(method);
    reveal(method_body);
    lemma_pattern_is_named(input, at);
    match pattern(input, at) {
        Ok(((name, parameters), first)) => {
            lemma_locals_are_names(input, at + first + 2);
            match locals(input, at + first + 2) {
                Ok((variables, second)) => {
                    lemma_block_body_fits(input, at + first + 2 + second);
                },
                Err(_) => {},
            }
        },
        Err(_) => {},
    }
}

/// The methods that the parser reads, added to methods that fit, fit.
pub proof fn lemma_methods_fit(input: Input, at: nat, found: Map<Seq<char>, MethodView>)
    requires
        tokens_well_formed(input),
        methods_fit(found),
    ensures
        methods(input, at, found) matches Ok((all, _)) ==> methods_fit(all),
    decreases input.left(at),
{
    lemma_methods_step(input, at, found);
    match input.peek(at) {
        Ok(token) => {
            lemma_method_fits(input, at);
            lemma_method_advances(input, at);
            match method(input, at) {
                Ok(((name, method), count)) => {
                    let more = found.insert(name, method);
                    assert forall|selector: Seq<char>| #[trigger]
                        more.contains_key(selector) implies method_fits(more[selector]) by {
                        if selector != name {
                            assert(found.contains_key(selector));
                        }
                    }
                    lemma_methods_fit(input, at + count, more);
                },
                Err(_) => {},
            }
        },
        Err(_) => {},
    }
}

/// The sides of a class that the parser reads from well-formed tokens fit.
pub proof fn lemma_sides_fit(input: Input, at: nat)
    requires
        tokens_well_formed(input),
    ensures
        sides(input, at) matches Ok(((instance, own), _)) ==> all_names(instance.0)
            && methods_fit(instance.1) && all_names(own.0) && methods_fit(own.1),
{
    reveal(sides);
    reveal(members);
    let empty = Map::<Seq<char>, MethodView>::empty();
    assert(methods_fit(empty));
    assert forall|start: nat|
        (#[trigger] members(input, start)) matches Ok(((variables, found), _)) ==> all_names(
            variables,
        ) && methods_fit(found) by {
        lemma_locals_are_names(input, start);
        match locals(input, start) {
            Ok((variables, first)) => {
                lemma_methods_fit(input, start + first, empty);
            },
            Err(_) => {},
        }
    }
}

/// The class that the parser reads from well-formed tokens fits.
pub proof fn lemma_class_fits(input: Input, at: nat)
    requires
        tokens_well_formed(input),
    ensures
        class(input, at) matches Ok((class, _)) ==> class_fits(class),
{
    reveal(class);
    if input.holds(at, Symbol::Identifier) {
        lemma_identifier_is_name(input, at);
    }
    if input.holds(at + 2, Symbol::Identifier) {
        lemma_identifier_is_name(input, at + 2);
    }
    match superclass_name(input, at + 2) {
        Ok((_, first)) => {
            lemma_sides_fit(input, at + 3 + first);
        },
        Err(_) => {},
    }
    reveal_strlit("Object");
    reveal_strlit("primitive");
    let object = "Object"@;
    assert(is_word(object)) by {
        assert(object.len() == 6);
        assert(object[0] == 'O' && object[1] == 'b' && object[2] == 'j' && object[3] == 'e'
            && object[4] == 'c' && object[5] == 't');
    }
}

/// For every text: the class that the parser reads from it has the shape
/// that a class has. Its names are not empty; in each keyword message the
/// selector is as many keywords as the message has arguments, so that it has
/// one colon for each argument and ends with a colon; and nothing is returned
/// but by a statement.
pub proof fn lemma_parsed_class_fits(chars: Seq<char>, filename: Seq<char>)
    ensures
        class(input_from(chars, filename), 0) matches Ok((class, _)) ==> class_fits(class),
{
    let input = input_from(chars, filename);
    lemma_tokens_well_formed(chars, 0);
    lemma_class_fits(input, 0);
}

/// For every text: the expression that the parser reads from it fits.
pub proof fn lemma_parsed_expression_fits(chars: Seq<char>, filename: Seq<char>)
    ensures
        expression(input_from(chars, filename), 0) matches Ok((value, _)) ==> fits(value),
{
    let input = input_from(chars, filename);
    lemma_tokens_well_formed(chars, 0);
    lemma_expression_fits(input, 0);
}

} // verus!
