//! Trees written as tokens and as a text, and read back by the parser: what
//! is written and read again is the same.

use crate::compiler::ast::{ClassView, ExpressionView, MethodView};
use crate::compiler::grammar::{
    all_digits, assignments, binary_message, binary_messages, binary_operator_text,
    binary_selector, block_body, block_parameters, class, colon_names, decimal_value, expression,
    formula, identifiers, input_from, is_binary_operator, keyword_parts, keyword_pattern_rest,
    lemma_binary_messages_step, lemma_block_body_step, lemma_expression_step, lemma_formula_step,
    lemma_keyword_message, lemma_keyword_parts_step, lemma_messages_step, lemma_method_advances,
    lemma_methods_step, lemma_nested_block_step, lemma_nested_term_step, lemma_operand_step,
    lemma_primary_step, lemma_statement_step, locals, members, messages, method, method_body,
    methods, nested_block, operand, pattern, primary, sides, starts_pattern, statement,
    superclass_name, unary_messages, ErrorView, Input,
};
use crate::compiler::lexical::{
    is_word, lemma_tokens_well_formed, operator_symbol, well_formed, CharClass,
};
use crate::compiler::shape::{
    all_fit, all_names, arguments_fit, fits, is_operator_text, keyword_ends, keyword_selector,
    lemma_block_body_fits, lemma_class_fits, lemma_expression_fits, lemma_method_fits, method_fits,
    pattern_fits, statement_fits, tokens_well_formed,
};
use crate::compiler::spelling::{all_well_formed, lemma_spelled_is_lexed, spelled, tokens_of};
use crate::compiler::token::{Symbol, TokenView};
use vstd::prelude::*;

verus! {

/// A token with a text.
pub open spec fn word(symbol: Symbol, text: Seq<char>) -> TokenView {
    TokenView { symbol, text: Some(text) }
}

/// A token without a text.
pub open spec fn sign(symbol: Symbol) -> TokenView {
    TokenView { symbol, text: None }
}

/// The digit that writes a number below ten.
pub open spec fn digit_of(value: nat) -> char {
    if value == 0 {
        '0'
    } else if value == 1 {
        '1'
    } else if value == 2 {
        '2'
    } else if value == 3 {
        '3'
    } else if value == 4 {
        '4'
    } else if value == 5 {
        '5'
    } else if value == 6 {
        '6'
    } else if value == 7 {
        '7'
    } else if value == 8 {
        '8'
    } else {
        '9'
    }
}

/// The digits that write a number.
pub open spec fn digits(value: nat) -> Seq<char>
    decreases value,
{
    if value < 10 {
        seq![digit_of(value)]
    } else {
        digits(value / 10).push(digit_of(value % 10))
    }
}

/// The symbol of an operator of one character.
pub open spec fn symbol_of(c: char) -> Symbol {
    if c == '-' {
        Symbol::Minus
    } else {
        operator_symbol(c)
    }
}

/// The token that writes a binary selector.
pub open spec fn operator_token(message: Seq<char>) -> TokenView {
    if message.len() == 1 {
        sign(symbol_of(message[0]))
    } else {
        word(Symbol::OperatorSequence, message)
    }
}

/// Where the first colon of a text at or behind `from` stands, or the end of
/// the text where it has none.
pub open spec fn colon_at(text: Seq<char>, from: int) -> int
    decreases text.len() - from,
{
    if 0 <= from < text.len() && text[from] != ':' {
        colon_at(text, from + 1)
    } else {
        from
    }
}

/// Whether an expression is written without brackets where it is a receiver
/// or an argument.
pub open spec fn is_primary(expression: ExpressionView) -> bool {
    match expression {
        ExpressionView::Assignment { .. } => false,
        ExpressionView::BinaryMessage { .. } => false,
        ExpressionView::KeywordMessage { .. } => false,
        ExpressionView::UnaryMessage { .. } => false,
        ExpressionView::Return(_) => false,
        _ => true,
    }
}

/// The tokens that write the variables of an assignment, each with the
/// assignment sign behind it.
pub open spec fn targets_written(variables: Seq<Seq<char>>) -> Seq<TokenView>
    decreases variables.len(),
{
    if variables.len() == 0 {
        Seq::empty()
    } else {
        seq![word(Symbol::Identifier, variables[0]), sign(Symbol::Assign)] + targets_written(
            variables.drop_first(),
        )
    }
}

/// The tokens that write the parameters of a block, each behind a colon.
pub open spec fn colon_names_written(parameters: Seq<Seq<char>>) -> Seq<TokenView>
    decreases parameters.len(),
{
    if parameters.len() == 0 {
        Seq::empty()
    } else {
        seq![sign(Symbol::Colon), word(Symbol::Identifier, parameters[0])] + colon_names_written(
            parameters.drop_first(),
        )
    }
}

/// The tokens that write the parameters of a block, with the bar that ends
/// them where there are any.
pub open spec fn parameters_written(parameters: Seq<Seq<char>>) -> Seq<TokenView> {
    if parameters.len() == 0 {
        Seq::empty()
    } else {
        colon_names_written(parameters) + seq![sign(Symbol::Or)]
    }
}

/// The tokens that write names one behind the other.
pub open spec fn names_written(names: Seq<Seq<char>>) -> Seq<TokenView>
    decreases names.len(),
{
    if names.len() == 0 {
        Seq::empty()
    } else {
        seq![word(Symbol::Identifier, names[0])] + names_written(names.drop_first())
    }
}

/// The tokens that write local variables: the names between two bars, or
/// nothing where there is none.
pub open spec fn locals_written(names: Seq<Seq<char>>) -> Seq<TokenView> {
    if names.len() == 0 {
        Seq::empty()
    } else {
        seq![sign(Symbol::Or)] + names_written(names) + seq![sign(Symbol::Or)]
    }
}

/// The tokens that write an expression. A receiver or an argument that is a
/// message or an assignment stands in round brackets.
pub open spec fn written(expression: ExpressionView) -> Seq<TokenView>
    decreases expression, 0nat,
{
    match expression {
        ExpressionView::Assignment { variables, value } => targets_written(variables)
            + operand_written(*value),
        ExpressionView::BinaryMessage { message, left, right } => operand_written(*left) + seq![
            operator_token(message),
        ] + operand_written(*right),
        ExpressionView::Block { parameters, locals, body } => seq![sign(Symbol::NewBlock)]
            + parameters_written(parameters) + locals_written(locals) + statements_written(body)
            + seq![sign(Symbol::EndBlock)],
        ExpressionView::KeywordMessage { message, receiver, parameters } => operand_written(
            *receiver,
        ) + arguments_written(message, parameters),
        ExpressionView::LiteralBoolean(value) => seq![
            word(
                Symbol::Identifier,
                if value {
                    "true"@
                } else {
                    "false"@
                },
            ),
        ],
        ExpressionView::LiteralDouble(value) => if value.negative {
            seq![sign(Symbol::Minus), word(Symbol::Double, value.lexeme)]
        } else {
            seq![word(Symbol::Double, value.lexeme)]
        },
        ExpressionView::LiteralInteger(value) => if value < 0 {
            seq![sign(Symbol::Minus), word(Symbol::Integer, digits((-value) as nat))]
        } else {
            seq![word(Symbol::Integer, digits(value as nat))]
        },
        ExpressionView::LiteralNil => seq![word(Symbol::Identifier, "nil"@)],
        ExpressionView::LiteralString(value) => seq![word(Symbol::String, value)],
        ExpressionView::LiteralSymbol(value) => seq![
            sign(Symbol::Pound),
            word(Symbol::String, value),
        ],
        ExpressionView::Return(value) => seq![sign(Symbol::Exit)] + written(*value),
        ExpressionView::UnaryMessage { message, receiver } => operand_written(*receiver) + seq![
            word(Symbol::Identifier, message),
        ],
        ExpressionView::Variable(name) => seq![word(Symbol::Identifier, name)],
    }
}

/// The tokens that write a receiver or an argument.
pub open spec fn operand_written(expression: ExpressionView) -> Seq<TokenView>
    decreases expression, 1nat,
{
    if is_primary(expression) {
        written(expression)
    } else {
        seq![sign(Symbol::NewTerm)] + written(expression) + seq![sign(Symbol::EndTerm)]
    }
}

/// The tokens that write the keywords of a message, each with its argument.
/// The keywords are the pieces of the selector that end with its colons.
pub open spec fn arguments_written(message: Seq<char>, parameters: Seq<ExpressionView>) -> Seq<
    TokenView,
>
    decreases parameters, 0nat,
{
    if parameters.len() == 0 {
        Seq::empty()
    } else {
        let colon = colon_at(message, 0);
        seq![word(Symbol::Keyword, message.take(colon + 1))] + operand_written(parameters[0])
            + arguments_written(message.skip(colon + 1), parameters.drop_first())
    }
}

/// The tokens that write statements, with periods between them.
pub open spec fn statements_written(statements: Seq<ExpressionView>) -> Seq<TokenView>
    decreases statements, 0nat,
{
    if statements.len() == 0 {
        Seq::empty()
    } else if statements.len() == 1 {
        written(statements[0])
    } else {
        written(statements[0]) + seq![sign(Symbol::Period)] + statements_written(
            statements.drop_first(),
        )
    }
}

/// Whether the tokens of an input from `at` on start with these tokens.
pub open spec fn holds_tokens(input: Input, at: nat, tokens: Seq<TokenView>) -> bool {
    &&& at + tokens.len() <= input.len()
    &&& forall|i: int|
        0 <= i < tokens.len() ==> input.token((at + i) as nat) == #[trigger] tokens[i]
}

/// Whether a token of this kind can go on an expression that stands before
/// it.
pub open spec fn continues(symbol: Symbol) -> bool {
    symbol == Symbol::Identifier || symbol == Symbol::Keyword || symbol == Symbol::Assign
        || symbol == Symbol::OperatorSequence || is_binary_operator(symbol)
}

/// Whether an expression that ends before `at` ends there for the parser
/// too: the input ends, or the token at `at` goes on no expression.
pub open spec fn stops(input: Input, at: nat) -> bool {
    at >= input.len() || !continues(input.token(at).symbol)
}

/// Whether a token of this kind can start a primary expression.
pub open spec fn starts_primary(symbol: Symbol) -> bool {
    symbol == Symbol::Identifier || symbol == Symbol::String || symbol == Symbol::Integer
        || symbol == Symbol::Double || symbol == Symbol::Pound || symbol == Symbol::Minus
        || symbol == Symbol::NewBlock || symbol == Symbol::NewTerm
}

/// Tokens that stand one behind the other stand where their parts stand.
pub proof fn lemma_holds_parts(
    input: Input,
    at: nat,
    first: Seq<TokenView>,
    second: Seq<TokenView>,
)
    ensures
        holds_tokens(input, at, first + second) <==> holds_tokens(input, at, first)
            && holds_tokens(input, at + first.len(), second),
{
    let all = first + second;
    if holds_tokens(input, at, all) {
        assert forall|i: int| 0 <= i < first.len() implies input.token((at + i) as nat)
            == #[trigger] first[i] by {
            assert(all[i] == first[i]);
        }
        assert forall|i: int| 0 <= i < second.len() implies input.token(
            (at + first.len() + i) as nat,
        ) == #[trigger] second[i] by {
            assert(all[first.len() + i] == second[i]);
        }
    }
    if holds_tokens(input, at, first) && holds_tokens(input, at + first.len(), second) {
        assert forall|i: int| 0 <= i < all.len() implies input.token((at + i) as nat)
            == #[trigger] all[i] by {
            if i < first.len() {
                assert(all[i] == first[i]);
            } else {
                assert(all[i] == second[i - first.len()]);
                assert(input.token((at + first.len() + (i - first.len())) as nat) == second[i
                    - first.len()]);
            }
        }
    }
}

/// The digits that write a number are digits, and the number is their
/// value.
pub proof fn lemma_digits(value: nat)
    ensures
        digits(value).len() >= 1,
        all_digits(digits(value)),
        decimal_value(digits(value)) == value,
    decreases value,
{
    if value < 10 {
        let text = digits(value);
        assert(text.drop_last() =~= Seq::<char>::empty());
        assert(text.last() == digit_of(value));
        assert(decimal_value(text.drop_last()) == 0);
    } else {
        lemma_digits(value / 10);
        let text = digits(value);
        let head = digits(value / 10);
        assert(text.drop_last() =~= head);
        assert(text.last() == digit_of(value % 10));
        assert forall|i: int| 0 <= i < text.len() implies crate::compiler::lexical::digit(
            #[trigger] text[i],
        ) by {
            if i < head.len() {
                assert(text[i] == head[i]);
            }
        }
    }
}

/// The token that writes a binary selector is read as that selector.
pub proof fn lemma_operator_token(message: Seq<char>)
    requires
        is_operator_text(message),
    ensures
        binary_selector(operator_token(message)) == Some(message),
        operator_token(message).symbol == Symbol::OperatorSequence || is_binary_operator(
            operator_token(message).symbol,
        ),
{
    if message.len() == 1 {
        reveal_strlit("&");
        reveal_strlit("@");
        reveal_strlit(",");
        reveal_strlit("/");
        reveal_strlit("=");
        reveal_strlit("<");
        reveal_strlit("-");
        reveal_strlit("\\");
        reveal_strlit(">");
        reveal_strlit("~");
        reveal_strlit("|");
        reveal_strlit("%");
        reveal_strlit("+");
        reveal_strlit("*");
        let symbol = symbol_of(message[0]);
        assert(binary_operator_text(symbol) =~= message);
    }
}

/// The first colon of a text stands where a colon stands that no colon
/// stands before.
pub proof fn lemma_colon_at(text: Seq<char>, from: int, colon: int)
    requires
        0 <= from <= colon < text.len(),
        text[colon] == ':',
        forall|i: int| from <= i < colon ==> text[i] != ':',
    ensures
        colon_at(text, from) == colon,
    decreases colon - from,
{
    if from < colon {
        lemma_colon_at(text, from + 1, colon);
    }
}

/// A selector of keywords starts with a keyword that ends at its first colon,
/// and goes on with a selector of one keyword less.
pub proof fn lemma_first_keyword(message: Seq<char>, arity: nat)
    requires
        arity >= 1,
        keyword_selector(message, arity),
    ensures
        keyword_ends(message, colon_at(message, 0)),
        keyword_selector(message.skip(colon_at(message, 0) + 1), (arity - 1) as nat),
{
    let k = choose|k: int| #[trigger]
        keyword_ends(message, k) && keyword_selector(message.skip(k + 1), (arity - 1) as nat);
    let name = message.take(k);
    assert forall|i: int| 0 <= i < k implies message[i] != ':' by {
        assert(CharClass::Identifier.has(name[i]));
    }
    lemma_colon_at(message, 0, k);
}

/// Each variable of an assignment, each parameter of a block and each name
/// is written with as many tokens as its rule has.
pub proof fn lemma_lengths(names: Seq<Seq<char>>)
    ensures
        targets_written(names).len() == 2 * names.len(),
        colon_names_written(names).len() == 2 * names.len(),
        names_written(names).len() == names.len(),
    decreases names.len(),
{
    if names.len() > 0 {
        lemma_lengths(names.drop_first());
    }
}

/// The variables of an assignment are read from the tokens that write them.
pub proof fn lemma_targets_are_read(input: Input, at: nat, variables: Seq<Seq<char>>)
    requires
        input.tokens.end is End,
        holds_tokens(input, at, targets_written(variables)),
        !input.holds(at + 2 * variables.len() + 1, Symbol::Assign),
    ensures
        targets_written(variables).len() == 2 * variables.len(),
        assignments(input, at) == Ok::<(Seq<Seq<char>>, nat), ErrorView>(
            (variables, 2 * variables.len()),
        ),
    decreases variables.len(),
{
    if variables.len() > 0 {
        let head = seq![word(Symbol::Identifier, variables[0]), sign(Symbol::Assign)];
        let others = variables.drop_first();
        lemma_holds_parts(input, at, head, targets_written(others));
        assert(input.token(at) == head[0]);
        assert(input.token((at + 1) as nat) == head[1]);
        lemma_targets_are_read(input, at + 2, others);
        assert(seq![variables[0]] + others =~= variables);
    } else {
        assert(variables =~= Seq::<Seq<char>>::empty());
    }
}

/// The parameters of a block are read from the tokens that write them.
pub proof fn lemma_colon_names_are_read(input: Input, at: nat, names: Seq<Seq<char>>)
    requires
        input.tokens.end is End,
        holds_tokens(input, at, colon_names_written(names)),
        !input.holds(at + 2 * names.len(), Symbol::Colon),
    ensures
        colon_names_written(names).len() == 2 * names.len(),
        colon_names(input, at) == Ok::<(Seq<Seq<char>>, nat), ErrorView>(
            (names, 2 * names.len()),
        ),
    decreases names.len(),
{
    if names.len() > 0 {
        let head = seq![sign(Symbol::Colon), word(Symbol::Identifier, names[0])];
        let others = names.drop_first();
        lemma_holds_parts(input, at, head, colon_names_written(others));
        assert(input.token(at) == head[0]);
        assert(input.token((at + 1) as nat) == head[1]);
        lemma_colon_names_are_read(input, at + 2, others);
        assert(seq![names[0]] + others =~= names);
    } else {
        assert(names =~= Seq::<Seq<char>>::empty());
    }
}

/// Names are read from the tokens that write them.
pub proof fn lemma_names_are_read(input: Input, at: nat, names: Seq<Seq<char>>)
    requires
        holds_tokens(input, at, names_written(names)),
        !input.holds(at + names.len(), Symbol::Identifier),
    ensures
        names_written(names).len() == names.len(),
        identifiers(input, at) == names,
    decreases names.len(),
{
    if names.len() > 0 {
        let head = seq![word(Symbol::Identifier, names[0])];
        let others = names.drop_first();
        lemma_holds_parts(input, at, head, names_written(others));
        assert(input.token(at) == head[0]);
        lemma_names_are_read(input, at + 1, others);
        assert(seq![names[0]] + others =~= names);
    } else {
        assert(names =~= Seq::<Seq<char>>::empty());
    }
}

/// The tokens that write an expression start with a token that starts a
/// primary expression, or with the sign that returns.
pub proof fn lemma_first_token(expression: ExpressionView)
    ensures
        written(expression).len() >= 1,
        expression is Return ==> written(expression)[0] == sign(Symbol::Exit),
        !(expression is Return) ==> starts_primary(written(expression)[0].symbol),
        operand_written(expression).len() >= 1,
        starts_primary(operand_written(expression)[0].symbol),
    decreases expression,
{
    match expression {
        ExpressionView::Assignment { variables, value } => {
            lemma_first_token(*value);
        },
        ExpressionView::BinaryMessage { message, left, right } => {
            lemma_first_token(*left);
        },
        ExpressionView::KeywordMessage { message, receiver, parameters } => {
            lemma_first_token(*receiver);
        },
        ExpressionView::UnaryMessage { message, receiver } => {
            lemma_first_token(*receiver);
        },
        ExpressionView::Return(value) => {
            lemma_first_token(*value);
        },
        _ => {},
    }
}

/// The tokens that write statements start with the tokens that write the
/// first of them.
pub proof fn lemma_first_statement(statements: Seq<ExpressionView>)
    requires
        statements.len() >= 1,
    ensures
        statements_written(statements).len() >= 1,
        statements_written(statements)[0] == written(statements[0])[0],
{
    lemma_first_token(statements[0]);
}

/// The second of the tokens that write an expression is the assignment sign
/// in an assignment alone.
pub proof fn lemma_second_token(expression: ExpressionView)
    requires
        fits(expression),
    ensures
        operand_written(expression).len() >= 2 ==> operand_written(expression)[1].symbol
            != Symbol::Assign,
        !(expression is Assignment) && written(expression).len() >= 2 ==> written(
            expression,
        )[1].symbol != Symbol::Assign,
    decreases expression,
{
    lemma_first_token(expression);
    match expression {
        ExpressionView::BinaryMessage { message, left, right } => {
            lemma_second_token(*left);
            lemma_first_token(*left);
            lemma_operator_token(message);
            let start = operand_written(*left);
            let all = start + seq![operator_token(message)] + operand_written(*right);
            if start.len() >= 2 {
                assert(all[1] == start[1]);
            } else {
                assert(all[1] == operator_token(message));
            }
        },
        ExpressionView::Block { parameters, locals, body } => {
            let rest = parameters_written(parameters) + locals_written(locals)
                + statements_written(body) + seq![sign(Symbol::EndBlock)];
            let all = written(expression);
            assert(all =~= seq![sign(Symbol::NewBlock)] + rest);
            assert(all[1] == rest[0]);
            if parameters.len() > 0 {
                assert(colon_names_written(parameters)[0] == sign(Symbol::Colon));
                assert(rest[0] == sign(Symbol::Colon));
            } else if locals.len() > 0 {
                assert(rest[0] == sign(Symbol::Or));
            } else if body.len() > 0 {
                lemma_first_statement(body);
                lemma_first_token(body[0]);
                assert(rest[0] == written(body[0])[0]);
            } else {
                assert(rest[0] == sign(Symbol::EndBlock));
            }
        },
        ExpressionView::KeywordMessage { message, receiver, parameters } => {
            lemma_second_token(*receiver);
            lemma_first_token(*receiver);
            let start = operand_written(*receiver);
            let rest = arguments_written(message, parameters);
            let all = start + rest;
            if start.len() >= 2 {
                assert(all[1] == start[1]);
            } else {
                assert(all[1] == rest[0]);
            }
        },
        ExpressionView::UnaryMessage { message, receiver } => {
            lemma_second_token(*receiver);
            lemma_first_token(*receiver);
            let start = operand_written(*receiver);
            let all = start + seq![word(Symbol::Identifier, message)];
            if start.len() >= 2 {
                assert(all[1] == start[1]);
            } else {
                assert(all[1] == word(Symbol::Identifier, message));
            }
        },
        _ => {},
    }
    if !is_primary(expression) {
        let inner = written(expression);
        let all = seq![sign(Symbol::NewTerm)] + inner + seq![sign(Symbol::EndTerm)];
        assert(all[1] == inner[0]);
    }
}

/// Whether the statements of a block or of a method that end before `at`
/// end there for the parser too: the input ends, or a closing bracket stands
/// at `at`.
pub open spec fn ends_body(input: Input, at: nat) -> bool {
    at >= input.len() || input.holds(at, Symbol::EndTerm) || input.holds(at, Symbol::EndBlock)
}

/// Whether an argument that ends before `at` ends there for the parser too.
pub open spec fn ends_argument(input: Input, at: nat) -> bool {
    at >= input.len() || !(input.token(at).symbol == Symbol::Identifier || input.token(
        at,
    ).symbol == Symbol::OperatorSequence || is_binary_operator(input.token(at).symbol))
}

/// Where no identifier stands, no unary message is read.
pub proof fn lemma_no_unary_message(input: Input, at: nat, receiver: ExpressionView)
    requires
        input.tokens.end is End,
        !input.holds(at, Symbol::Identifier),
    ensures
        unary_messages(input, at, receiver) == Ok::<(ExpressionView, nat), ErrorView>(
            (receiver, 0),
        ),
{
}

/// Where no operator stands, no binary message is read.
pub proof fn lemma_no_binary_message(input: Input, at: nat, left: ExpressionView)
    requires
        input.tokens.end is End,
        ends_argument(input, at),
    ensures
        binary_messages(input, at, left) == Ok::<(ExpressionView, nat), ErrorView>((left, 0)),
{
    lemma_binary_messages_step(input, at, left);
}

/// Where an expression stops, no message is read.
pub proof fn lemma_no_message(input: Input, at: nat, receiver: ExpressionView)
    requires
        input.tokens.end is End,
        stops(input, at),
    ensures
        messages(input, at, receiver) == Ok::<(ExpressionView, nat), ErrorView>((receiver, 0)),
{
    lemma_messages_step(input, at, receiver);
    lemma_no_unary_message(input, at, receiver);
    lemma_no_binary_message(input, at, receiver);
}

/// The parser reads the parameters of a block from the tokens that write
/// them.
pub proof fn lemma_parameters_are_read(input: Input, at: nat, parameters: Seq<Seq<char>>)
    requires
        input.tokens.end is End,
        holds_tokens(input, at, parameters_written(parameters)),
        parameters.len() == 0 ==> !input.holds(at, Symbol::Colon),
    ensures
        block_parameters(input, at) == Ok::<(Seq<Seq<char>>, nat), ErrorView>(
            (parameters, parameters_written(parameters).len()),
        ),
{
    lemma_lengths(parameters);
    if parameters.len() > 0 {
        let names = colon_names_written(parameters);
        let bar = seq![sign(Symbol::Or)];
        lemma_holds_parts(input, at, names, bar);
        assert(input.token((at + names.len()) as nat) == bar[0]);
        lemma_colon_names_are_read(input, at, parameters);
    } else {
        assert(parameters =~= Seq::<Seq<char>>::empty());
        lemma_colon_names_are_read(input, at, parameters);
    }
}

/// The parser reads local variables from the tokens that write them.
pub proof fn lemma_locals_are_read(input: Input, at: nat, variables: Seq<Seq<char>>)
    requires
        input.tokens.end is End,
        holds_tokens(input, at, locals_written(variables)),
        variables.len() == 0 ==> !input.holds(at, Symbol::Or),
    ensures
        locals(input, at) == Ok::<(Seq<Seq<char>>, nat), ErrorView>(
            (variables, locals_written(variables).len()),
        ),
{
    lemma_lengths(variables);
    if variables.len() > 0 {
        let names = names_written(variables);
        let bar = seq![sign(Symbol::Or)];
        assert(locals_written(variables) == bar + names + bar);
        lemma_holds_parts(input, at, bar + names, bar);
        lemma_holds_parts(input, at, bar, names);
        assert(input.token(at) == bar[0]);
        assert(input.token((at + 1 + names.len()) as nat) == bar[0]);
        lemma_names_are_read(input, at + 1, variables);
    } else {
        assert(variables =~= Seq::<Seq<char>>::empty());
    }
}

/// The token at which the tokens that write the local variables and the
/// statements of a block start is no colon, and where there are no local
/// variables it is no bar.
pub proof fn lemma_block_rest_starts(
    input: Input,
    at: nat,
    variables: Seq<Seq<char>>,
    body: Seq<ExpressionView>,
    close: Symbol,
)
    requires
        close == Symbol::EndBlock || close == Symbol::EndTerm,
        holds_tokens(
            input,
            at,
            locals_written(variables) + statements_written(body) + seq![sign(close)],
        ),
    ensures
        !input.holds(at, Symbol::Colon),
        variables.len() == 0 ==> !input.holds(at, Symbol::Or),
        body.len() > 0 ==> !input.holds(at + locals_written(variables).len(), Symbol::Or),
{
    let first = locals_written(variables);
    let second = statements_written(body);
    let last = seq![sign(close)];
    let all = first + second + last;
    lemma_holds_parts(input, at, first + second, last);
    lemma_holds_parts(input, at, first, second);
    assert(input.token(at) == all[0]);
    if body.len() > 0 {
        lemma_first_statement(body);
        lemma_first_token(body[0]);
        assert(input.token((at + first.len()) as nat) == second[0]);
    }
    if variables.len() > 0 {
        assert(all[0] == sign(Symbol::Or));
    } else if body.len() > 0 {
        assert(all[0] == second[0]);
    } else {
        assert(all[0] == sign(close));
    }
}

/// The parser reads a block from the tokens that write it.
pub proof fn lemma_block_is_read(input: Input, at: nat, value: ExpressionView)
    requires
        input.tokens.end is End,
        fits(value),
        value is Block,
        holds_tokens(input, at, written(value)),
    ensures
        nested_block(input, at) == Ok::<(ExpressionView, nat), ErrorView>(
            (value, written(value).len()),
        ),
    decreases value, 1nat,
{
    lemma_nested_block_step(input, at);
    let tokens = written(value);
    match value {
        ExpressionView::Block { parameters, locals: variables, body } => {
            let first = parameters_written(parameters);
            let second = locals_written(variables);
            let third = statements_written(body);
            let open = seq![sign(Symbol::NewBlock)];
            let close = seq![sign(Symbol::EndBlock)];
            assert(tokens == open + first + second + third + close);
            assert(tokens =~= open + first + (second + third + close));
            lemma_holds_parts(input, at, open + first, second + third + close);
            lemma_holds_parts(input, at, open + first + second + third, close);
            lemma_holds_parts(input, at, open + first + second, third);
            lemma_holds_parts(input, at, open + first, second);
            lemma_holds_parts(input, at, open, first);
            let p1 = (at + 1) as nat;
            let p2 = (p1 + first.len()) as nat;
            let p3 = (p2 + second.len()) as nat;
            let p4 = (p3 + third.len()) as nat;
            assert(input.token(at) == open[0]);
            assert(input.token(p4) == close[0]);
            lemma_block_rest_starts(input, p2, variables, body, Symbol::EndBlock);
            lemma_parameters_are_read(input, p1, parameters);
            lemma_locals_are_read(input, p2, variables);
            assert(all_fit(body));
            lemma_statements_are_read(input, p3, body);
            assert(tokens.len() == 2 + first.len() + second.len() + third.len());
        },
        _ => {},
    }
}

/// The parser reads a receiver or an argument, as a primary expression, from
/// the tokens that write it.
pub proof fn lemma_primary_is_read(input: Input, at: nat, value: ExpressionView)
    requires
        input.tokens.end is End,
        fits(value),
        holds_tokens(input, at, operand_written(value)),
    ensures
        primary(input, at) == Ok::<(ExpressionView, nat), ErrorView>(
            (value, operand_written(value).len()),
        ),
    decreases value, 2nat,
{
    lemma_primary_step(input, at);
    lemma_nested_term_step(input, at);
    let tokens = operand_written(value);
    lemma_first_token(value);
    assert(input.token(at) == tokens[0]);
    match value {
        ExpressionView::Block { parameters, locals: variables, body } => {
            lemma_block_is_read(input, at, value);
        },
        ExpressionView::LiteralBoolean(flag) => {
            reveal_strlit("nil");
            reveal_strlit("true");
            reveal_strlit("false");
        },
        ExpressionView::LiteralInteger(number) => {
            if number < 0 {
                lemma_digits((-number) as nat);
                assert(input.token((at + 1) as nat) == tokens[1]);
            } else {
                lemma_digits(number as nat);
            }
        },
        ExpressionView::LiteralDouble(number) => {
            if number.negative {
                assert(input.token((at + 1) as nat) == tokens[1]);
            }
        },
        ExpressionView::LiteralSymbol(name) => {
            assert(input.token((at + 1) as nat) == tokens[1]);
        },
        ExpressionView::LiteralNil => {},
        ExpressionView::LiteralString(text) => {},
        ExpressionView::Variable(name) => {},
        _ => {
            let inner = written(value);
            let open = seq![sign(Symbol::NewTerm)];
            let close = seq![sign(Symbol::EndTerm)];
            assert(tokens == open + inner + close);
            lemma_holds_parts(input, at, open + inner, close);
            lemma_holds_parts(input, at, open, inner);
            assert(input.token((at + 1 + inner.len()) as nat) == close[0]);
            lemma_expression_is_read(input, at + 1, value);
        },
    }
}

/// The parser reads an argument of a binary message from the tokens that
/// write it.
pub proof fn lemma_operand_is_read(input: Input, at: nat, value: ExpressionView)
    requires
        input.tokens.end is End,
        fits(value),
        holds_tokens(input, at, operand_written(value)),
        !input.holds(at + operand_written(value).len(), Symbol::Identifier),
    ensures
        operand(input, at) == Ok::<(ExpressionView, nat), ErrorView>(
            (value, operand_written(value).len()),
        ),
    decreases value, 3nat,
{
    lemma_operand_step(input, at);
    lemma_primary_is_read(input, at, value);
    lemma_no_unary_message(input, at + operand_written(value).len(), value);
}

/// The parser reads an argument of a keyword from the tokens that write it.
pub proof fn lemma_formula_is_read(input: Input, at: nat, value: ExpressionView)
    requires
        input.tokens.end is End,
        fits(value),
        holds_tokens(input, at, operand_written(value)),
        ends_argument(input, at + operand_written(value).len()),
    ensures
        formula(input, at) == Ok::<(ExpressionView, nat), ErrorView>(
            (value, operand_written(value).len()),
        ),
    decreases value, 4nat,
{
    lemma_formula_step(input, at);
    lemma_operand_is_read(input, at, value);
    lemma_no_binary_message(input, at + operand_written(value).len(), value);
}

/// The parser reads an expression from the tokens that write it as a
/// receiver or an argument.
pub proof fn lemma_enclosed_is_read(input: Input, at: nat, value: ExpressionView)
    requires
        input.tokens.end is End,
        fits(value),
        holds_tokens(input, at, operand_written(value)),
        stops(input, at + operand_written(value).len()),
    ensures
        expression(input, at) == Ok::<(ExpressionView, nat), ErrorView>(
            (value, operand_written(value).len()),
        ),
    decreases value, 3nat,
{
    lemma_expression_step(input, at);
    let tokens = operand_written(value);
    lemma_second_token(value);
    if tokens.len() >= 2 {
        assert(input.token((at + 1) as nat) == tokens[1]);
    }
    lemma_primary_is_read(input, at, value);
    lemma_no_message(input, at + tokens.len(), value);
}

/// The parser reads an assignment from the tokens that write it.
pub proof fn lemma_assignment_is_read(input: Input, at: nat, value: ExpressionView)
    requires
        input.tokens.end is End,
        fits(value),
        value is Assignment,
        holds_tokens(input, at, written(value)),
        stops(input, at + written(value).len()),
    ensures
        expression(input, at) == Ok::<(ExpressionView, nat), ErrorView>(
            (value, written(value).len()),
        ),
    decreases value, 0nat,
{
    lemma_expression_step(input, at);
    let tokens = written(value);
    match value {
        ExpressionView::Assignment { variables, value: assigned } => {
            let targets = targets_written(variables);
            let rest = operand_written(*assigned);
            let others = variables.drop_first();
            let head = seq![word(Symbol::Identifier, variables[0]), sign(Symbol::Assign)];
            lemma_holds_parts(input, at, targets, rest);
            lemma_holds_parts(input, at, head, targets_written(others));
            assert(input.token(at) == head[0]);
            assert(input.token((at + 1) as nat) == head[1]);
            lemma_second_token(*assigned);
            lemma_first_token(*assigned);
            lemma_lengths(variables);
            lemma_lengths(others);
            let start = (at + 2 + 2 * others.len()) as nat;
            if rest.len() >= 2 {
                assert(input.token((start + 1) as nat) == rest[1]);
            }
            lemma_targets_are_read(input, at + 2, others);
            lemma_enclosed_is_read(input, start, *assigned);
            assert(seq![variables[0]] + others =~= variables);
            let read = ExpressionView::Assignment {
                variables: seq![variables[0]] + others,
                value: Box::new(*assigned),
            };
            assert(read == value);
            assert(tokens.len() == 2 + 2 * others.len() + rest.len());
            assert(expression(input, at) == Ok::<(ExpressionView, nat), ErrorView>(
                (read, (2 + 2 * others.len() + rest.len()) as nat),
            ));
        },
        _ => {},
    }
}

/// The parser reads a binary message from the tokens that write it.
pub proof fn lemma_binary_message_is_read(input: Input, at: nat, value: ExpressionView)
    requires
        input.tokens.end is End,
        fits(value),
        value is BinaryMessage,
        holds_tokens(input, at, written(value)),
        stops(input, at + written(value).len()),
    ensures
        expression(input, at) == Ok::<(ExpressionView, nat), ErrorView>(
            (value, written(value).len()),
        ),
    decreases value, 0nat,
{
    lemma_expression_step(input, at);
    reveal(binary_message);
    let tokens = written(value);
    match value {
        ExpressionView::BinaryMessage { message, left, right } => {
            let first = operand_written(*left);
            let operator = seq![operator_token(message)];
            let second = operand_written(*right);
            lemma_holds_parts(input, at, first + operator, second);
            lemma_holds_parts(input, at, first, operator);
            lemma_operator_token(message);
            let middle = (at + first.len()) as nat;
            assert(input.token(middle) == operator[0]);
            lemma_second_token(value);
            lemma_first_token(*left);
            assert(input.token((at + 1) as nat) == tokens[1]);
            lemma_primary_is_read(input, at, *left);
            lemma_messages_step(input, middle, *left);
            lemma_no_unary_message(input, middle, *left);
            lemma_binary_messages_step(input, middle, *left);
            lemma_operand_is_read(input, middle + 1, *right);
            lemma_no_binary_message(input, middle + 1 + second.len(), value);
        },
        _ => {},
    }
}

/// The parser reads a keyword message from the tokens that write it.
pub proof fn lemma_keyword_message_is_read(input: Input, at: nat, value: ExpressionView)
    requires
        input.tokens.end is End,
        fits(value),
        value is KeywordMessage,
        holds_tokens(input, at, written(value)),
        stops(input, at + written(value).len()),
    ensures
        expression(input, at) == Ok::<(ExpressionView, nat), ErrorView>(
            (value, written(value).len()),
        ),
    decreases value, 0nat,
{
    lemma_expression_step(input, at);
    let tokens = written(value);
    match value {
        ExpressionView::KeywordMessage { message, receiver, parameters } => {
            let first = operand_written(*receiver);
            let rest = arguments_written(message, parameters);
            lemma_holds_parts(input, at, first, rest);
            let middle = (at + first.len()) as nat;
            assert(input.token(middle) == rest[0]);
            lemma_second_token(value);
            lemma_first_token(*receiver);
            assert(input.token((at + 1) as nat) == tokens[1]);
            lemma_primary_is_read(input, at, *receiver);
            lemma_messages_step(input, middle, *receiver);
            lemma_no_unary_message(input, middle, *receiver);
            lemma_no_binary_message(input, middle, *receiver);
            lemma_keyword_message(input, middle, *receiver);
            lemma_arguments_are_read(input, middle, message, parameters);
        },
        _ => {},
    }
}

/// The parser reads a unary message from the tokens that write it.
pub proof fn lemma_unary_message_is_read(input: Input, at: nat, value: ExpressionView)
    requires
        input.tokens.end is End,
        fits(value),
        value is UnaryMessage,
        holds_tokens(input, at, written(value)),
        stops(input, at + written(value).len()),
    ensures
        expression(input, at) == Ok::<(ExpressionView, nat), ErrorView>(
            (value, written(value).len()),
        ),
    decreases value, 0nat,
{
    lemma_expression_step(input, at);
    let tokens = written(value);
    match value {
        ExpressionView::UnaryMessage { message, receiver } => {
            let first = operand_written(*receiver);
            let selector = seq![word(Symbol::Identifier, message)];
            lemma_holds_parts(input, at, first, selector);
            let middle = (at + first.len()) as nat;
            assert(input.token(middle) == selector[0]);
            lemma_second_token(value);
            lemma_first_token(*receiver);
            assert(input.token((at + 1) as nat) == tokens[1]);
            lemma_primary_is_read(input, at, *receiver);
            lemma_messages_step(input, middle, *receiver);
            lemma_no_unary_message(input, middle + 1, value);
            lemma_no_binary_message(input, middle + 1, value);
        },
        _ => {},
    }
}

/// The parser reads an expression from the tokens that write it.
pub proof fn lemma_expression_is_read(input: Input, at: nat, value: ExpressionView)
    requires
        input.tokens.end is End,
        fits(value),
        holds_tokens(input, at, written(value)),
        stops(input, at + written(value).len()),
    ensures
        expression(input, at) == Ok::<(ExpressionView, nat), ErrorView>(
            (value, written(value).len()),
        ),
    decreases value,
        if is_primary(value) {
            4nat
        } else {
            1nat
        },
{
    match value {
        ExpressionView::Assignment { .. } => {
            lemma_assignment_is_read(input, at, value);
        },
        ExpressionView::BinaryMessage { .. } => {
            lemma_binary_message_is_read(input, at, value);
        },
        ExpressionView::KeywordMessage { .. } => {
            lemma_keyword_message_is_read(input, at, value);
        },
        ExpressionView::UnaryMessage { .. } => {
            lemma_unary_message_is_read(input, at, value);
        },
        ExpressionView::Return(returned) => {},
        _ => {
            lemma_enclosed_is_read(input, at, value);
        },
    }
}

/// The parser reads a statement from the tokens that write it.
pub proof fn lemma_statement_is_read(input: Input, at: nat, value: ExpressionView)
    requires
        input.tokens.end is End,
        statement_fits(value),
        holds_tokens(input, at, written(value)),
        stops(input, at + written(value).len()),
    ensures
        statement(input, at) == Ok::<(ExpressionView, nat), ErrorView>(
            (value, written(value).len()),
        ),
    decreases value, 5nat,
{
    lemma_statement_step(input, at);
    lemma_first_token(value);
    assert(input.token(at) == written(value)[0]);
    match value {
        ExpressionView::Return(returned) => {
            let exit = seq![sign(Symbol::Exit)];
            lemma_holds_parts(input, at, exit, written(*returned));
            lemma_expression_is_read(input, at + 1, *returned);
        },
        _ => {
            lemma_expression_is_read(input, at, value);
        },
    }
}

/// The parser reads statements from the tokens that write them.
pub proof fn lemma_statements_are_read(input: Input, at: nat, statements: Seq<ExpressionView>)
    requires
        input.tokens.end is End,
        all_fit(statements),
        holds_tokens(input, at, statements_written(statements)),
        ends_body(input, at + statements_written(statements).len()),
    ensures
        block_body(input, at) == Ok::<(Seq<ExpressionView>, nat), ErrorView>(
            (statements, statements_written(statements).len()),
        ),
    decreases statements, 0nat,
{
    lemma_block_body_step(input, at);
    if statements.len() == 0 {
        assert(statements =~= Seq::<ExpressionView>::empty());
    } else {
        let first = written(statements[0]);
        lemma_first_token(statements[0]);
        lemma_first_statement(statements);
        assert(input.token(at) == statements_written(statements)[0]);
        assert(statement_fits(statements[0]));
        if statements.len() == 1 {
            lemma_statement_is_read(input, at, statements[0]);
            assert(seq![statements[0]] =~= statements);
        } else {
            let others = statements.drop_first();
            let period = seq![sign(Symbol::Period)];
            let rest = statements_written(others);
            lemma_holds_parts(input, at, first + period, rest);
            lemma_holds_parts(input, at, first, period);
            assert(input.token((at + first.len()) as nat) == period[0]);
            lemma_statement_is_read(input, at, statements[0]);
            assert(all_fit(others)) by {
                assert forall|i: int| 0 <= i < others.len() implies statement_fits(
                    #[trigger] others[i],
                ) by {
                    assert(others[i] == statements[i + 1]);
                }
            }
            lemma_statements_are_read(input, at + first.len() + 1, others);
            assert(seq![statements[0]] + others =~= statements);
        }
    }
}

/// The parser reads the keywords of a message with their arguments from the
/// tokens that write them.
pub proof fn lemma_arguments_are_read(
    input: Input,
    at: nat,
    message: Seq<char>,
    parameters: Seq<ExpressionView>,
)
    requires
        input.tokens.end is End,
        keyword_selector(message, parameters.len()),
        arguments_fit(parameters),
        holds_tokens(input, at, arguments_written(message, parameters)),
        stops(input, at + arguments_written(message, parameters).len()),
    ensures
        keyword_parts(input, at) == Ok::<((Seq<char>, Seq<ExpressionView>), nat), ErrorView>(
            ((message, parameters), arguments_written(message, parameters).len()),
        ),
    decreases parameters, 0nat,
{
    lemma_keyword_parts_step(input, at);
    if parameters.len() == 0 {
        assert(parameters =~= Seq::<ExpressionView>::empty());
        assert(message =~= Seq::<char>::empty());
    } else {
        lemma_first_keyword(message, parameters.len());
        let colon = colon_at(message, 0);
        let keyword = seq![word(Symbol::Keyword, message.take(colon + 1))];
        let first = operand_written(parameters[0]);
        let others = parameters.drop_first();
        let rest = arguments_written(message.skip(colon + 1), others);
        lemma_holds_parts(input, at, keyword + first, rest);
        lemma_holds_parts(input, at, keyword, first);
        assert(input.token(at) == keyword[0]);
        let next = (at + 1 + first.len()) as nat;
        if others.len() > 0 {
            assert(input.token(next) == rest[0]);
        }
        assert(fits(parameters[0]));
        lemma_formula_is_read(input, at + 1, parameters[0]);
        assert(arguments_fit(others)) by {
            assert forall|i: int| 0 <= i < others.len() implies fits(#[trigger] others[i]) by {
                assert(others[i] == parameters[i + 1]);
            }
        }
        lemma_arguments_are_read(input, next, message.skip(colon + 1), others);
        assert(message.take(colon + 1) + message.skip(colon + 1) =~= message);
        assert(seq![parameters[0]] + others =~= parameters);
    }
}

/// The selector of a method.
pub open spec fn method_name(method: MethodView) -> Seq<char> {
    match method {
        MethodView::Primitive { name, .. } => name,
        MethodView::Native { name, .. } => name,
    }
}

/// The tokens that write the keywords of a pattern, each with its
/// parameter.
pub open spec fn keyword_pattern_written(name: Seq<char>, parameters: Seq<Seq<char>>) -> Seq<
    TokenView,
>
    decreases parameters.len(),
{
    if parameters.len() == 0 {
        Seq::empty()
    } else {
        let colon = colon_at(name, 0);
        seq![
            word(Symbol::Keyword, name.take(colon + 1)),
            word(Symbol::Identifier, parameters[0]),
        ] + keyword_pattern_written(name.skip(colon + 1), parameters.drop_first())
    }
}

/// The tokens that write the pattern of a method.
pub open spec fn pattern_written(name: Seq<char>, parameters: Seq<Seq<char>>) -> Seq<TokenView> {
    if parameters.len() == 0 {
        seq![word(Symbol::Identifier, name)]
    } else if name.len() >= 1 && name.last() == ':' {
        keyword_pattern_written(name, parameters)
    } else {
        seq![operator_token(name), word(Symbol::Identifier, parameters[0])]
    }
}

/// The tokens that write a method.
pub open spec fn method_written(method: MethodView) -> Seq<TokenView> {
    match method {
        MethodView::Primitive { name, parameters } => pattern_written(name, parameters) + seq![
            sign(Symbol::Equal),
            sign(Symbol::Primitive),
        ],
        MethodView::Native { name, parameters, locals, body } => pattern_written(name, parameters)
            + seq![sign(Symbol::Equal), sign(Symbol::NewTerm)] + locals_written(locals)
            + statements_written(body) + seq![sign(Symbol::EndTerm)],
    }
}

/// The tokens that write methods one behind the other.
pub open spec fn methods_written(methods: Seq<MethodView>) -> Seq<TokenView>
    decreases methods.len(),
{
    if methods.len() == 0 {
        Seq::empty()
    } else {
        method_written(methods[0]) + methods_written(methods.drop_first())
    }
}

/// The table that holds the methods in `found` and these methods, each under
/// its selector. Of two methods with one selector the later one stays.
pub open spec fn table_of(methods: Seq<MethodView>, found: Map<Seq<char>, MethodView>) -> Map<
    Seq<char>,
    MethodView,
>
    decreases methods.len(),
{
    if methods.len() == 0 {
        found
    } else {
        table_of(methods.drop_first(), found.insert(method_name(methods[0]), methods[0]))
    }
}

/// The tokens that write one side of a class: its variables between two
/// bars, and its methods.
pub open spec fn side_written(variables: Seq<Seq<char>>, methods: Seq<MethodView>) -> Seq<
    TokenView,
> {
    seq![sign(Symbol::Or)] + names_written(variables) + seq![sign(Symbol::Or)] + methods_written(
        methods,
    )
}

/// The tokens that write a class whose methods are listed in some order.
pub open spec fn class_written(
    class: ClassView,
    instance_methods: Seq<MethodView>,
    class_methods: Seq<MethodView>,
) -> Seq<TokenView> {
    seq![
        word(Symbol::Identifier, class.name),
        sign(Symbol::Equal),
        word(Symbol::Identifier, class.superclass),
        sign(Symbol::NewTerm),
    ] + side_written(class.instance_variables, instance_methods) + seq![sign(Symbol::Separator)]
        + side_written(class.class_variables, class_methods) + seq![sign(Symbol::EndTerm)]
}

/// Whether all methods of a list fit.
pub open spec fn methods_all_fit(methods: Seq<MethodView>) -> bool {
    forall|i: int| 0 <= i < methods.len() ==> method_fits(#[trigger] methods[i])
}

/// The keywords of a pattern are written with two tokens for each
/// parameter.
pub proof fn lemma_keyword_pattern_length(name: Seq<char>, parameters: Seq<Seq<char>>)
    ensures
        keyword_pattern_written(name, parameters).len() == 2 * parameters.len(),
    decreases parameters.len(),
{
    if parameters.len() > 0 {
        lemma_keyword_pattern_length(
            name.skip(colon_at(name, 0) + 1),
            parameters.drop_first(),
        );
    }
}

/// The keywords of a pattern with their parameters are read from the tokens
/// that write them.
pub proof fn lemma_keyword_pattern_is_read(
    input: Input,
    at: nat,
    name: Seq<char>,
    parameters: Seq<Seq<char>>,
)
    requires
        keyword_selector(name, parameters.len()),
        holds_tokens(input, at, keyword_pattern_written(name, parameters)),
        at + 2 * parameters.len() < input.len(),
        !input.holds(at + 2 * parameters.len(), Symbol::Keyword),
    ensures
        keyword_pattern_rest(input, at) == Ok::<((Seq<char>, Seq<Seq<char>>), nat), ErrorView>(
            ((name, parameters), 2 * parameters.len()),
        ),
    decreases parameters.len(),
{
    lemma_keyword_pattern_length(name, parameters);
    if parameters.len() == 0 {
        assert(parameters =~= Seq::<Seq<char>>::empty());
        assert(name =~= Seq::<char>::empty());
    } else {
        lemma_first_keyword(name, parameters.len());
        let colon = colon_at(name, 0);
        let head = seq![
            word(Symbol::Keyword, name.take(colon + 1)),
            word(Symbol::Identifier, parameters[0]),
        ];
        let others = parameters.drop_first();
        let rest = keyword_pattern_written(name.skip(colon + 1), others);
        lemma_holds_parts(input, at, head, rest);
        assert(input.token(at) == head[0]);
        assert(input.token((at + 1) as nat) == head[1]);
        lemma_keyword_pattern_is_read(input, at + 2, name.skip(colon + 1), others);
        assert(name.take(colon + 1) + name.skip(colon + 1) =~= name);
        assert(seq![parameters[0]] + others =~= parameters);
    }
}

/// The tokens that write a pattern start with a token that starts a pattern,
/// and there is one at least.
pub proof fn lemma_pattern_first_token(name: Seq<char>, parameters: Seq<Seq<char>>)
    requires
        pattern_fits(name, parameters),
    ensures
        pattern_written(name, parameters).len() >= 1,
        starts_pattern(pattern_written(name, parameters)[0].symbol),
{
    if parameters.len() > 0 && !(name.last() == ':') {
        lemma_operator_token(name);
    }
}

/// The parser reads the pattern of a method from the tokens that write it.
pub proof fn lemma_pattern_is_read(
    input: Input,
    at: nat,
    name: Seq<char>,
    parameters: Seq<Seq<char>>,
)
    requires
        pattern_fits(name, parameters),
        holds_tokens(input, at, pattern_written(name, parameters)),
        input.holds(at + pattern_written(name, parameters).len(), Symbol::Equal),
    ensures
        pattern(input, at) == Ok::<((Seq<char>, Seq<Seq<char>>), nat), ErrorView>(
            ((name, parameters), pattern_written(name, parameters).len()),
        ),
{
    let tokens = pattern_written(name, parameters);
    lemma_pattern_first_token(name, parameters);
    assert(input.token(at) == tokens[0]);
    if parameters.len() == 0 {
        assert(parameters =~= Seq::<Seq<char>>::empty());
    } else if name.last() == ':' {
        lemma_keyword_pattern_length(name, parameters);
        lemma_first_keyword(name, parameters.len());
        let colon = colon_at(name, 0);
        let head = seq![
            word(Symbol::Keyword, name.take(colon + 1)),
            word(Symbol::Identifier, parameters[0]),
        ];
        let others = parameters.drop_first();
        let rest = keyword_pattern_written(name.skip(colon + 1), others);
        lemma_holds_parts(input, at, head, rest);
        assert(input.token(at) == head[0]);
        assert(input.token((at + 1) as nat) == head[1]);
        lemma_keyword_pattern_length(name.skip(colon + 1), others);
        lemma_keyword_pattern_is_read(input, at + 2, name.skip(colon + 1), others);
        assert(name.take(colon + 1) + name.skip(colon + 1) =~= name);
        assert(seq![parameters[0]] + others =~= parameters);
    } else {
        lemma_operator_token(name);
        assert(input.token((at + 1) as nat) == tokens[1]);
        assert(seq![parameters[0]] =~= parameters);
    }
}

/// The parser reads a method from the tokens that write it.
pub proof fn lemma_method_is_read(input: Input, at: nat, value: MethodView)
    requires
        input.tokens.end is End,
        method_fits(value),
        holds_tokens(input, at, method_written(value)),
    ensures
        method(input, at) == Ok::<((Seq<char>, MethodView), nat), ErrorView>(
            ((method_name(value), value), method_written(value).len()),
        ),
        method_written(value).len() >= 1,
        starts_pattern(method_written(value)[0].symbol),
{
    reveal(method);
    reveal(method_body);
    match value {
        MethodView::Primitive { name, parameters } => {
            let first = pattern_written(name, parameters);
            let rest = seq![sign(Symbol::Equal), sign(Symbol::Primitive)];
            lemma_pattern_first_token(name, parameters);
            lemma_holds_parts(input, at, first, rest);
            let middle = (at + first.len()) as nat;
            assert(input.token(middle) == rest[0]);
            assert(input.token((middle + 1) as nat) == rest[1]);
            lemma_pattern_is_read(input, at, name, parameters);
        },
        MethodView::Native { name, parameters, locals: variables, body } => {
            let first = pattern_written(name, parameters);
            let open = seq![sign(Symbol::Equal), sign(Symbol::NewTerm)];
            let second = locals_written(variables);
            let third = statements_written(body);
            let close = seq![sign(Symbol::EndTerm)];
            let tokens = method_written(value);
            lemma_pattern_first_token(name, parameters);
            assert(tokens =~= first + open + (second + third + close));
            lemma_holds_parts(input, at, first + open, second + third + close);
            lemma_holds_parts(input, at, first + open + second + third, close);
            lemma_holds_parts(input, at, first + open + second, third);
            lemma_holds_parts(input, at, first + open, second);
            lemma_holds_parts(input, at, first, open);
            let middle = (at + first.len()) as nat;
            let p2 = (middle + 2) as nat;
            let p3 = (p2 + second.len()) as nat;
            let p4 = (p3 + third.len()) as nat;
            assert(input.token(middle) == open[0]);
            assert(input.token((middle + 1) as nat) == open[1]);
            assert(input.token(p4) == close[0]);
            lemma_pattern_is_read(input, at, name, parameters);
            lemma_block_rest_starts(input, p2, variables, body, Symbol::EndTerm);
            lemma_locals_are_read(input, p2, variables);
            lemma_statements_are_read(input, p3, body);
        },
    }
}

/// The parser reads methods from the tokens that write them.
pub proof fn lemma_methods_are_read(
    input: Input,
    at: nat,
    values: Seq<MethodView>,
    found: Map<Seq<char>, MethodView>,
)
    requires
        input.tokens.end is End,
        methods_all_fit(values),
        holds_tokens(input, at, methods_written(values)),
        at + methods_written(values).len() < input.len(),
        !starts_pattern(input.token((at + methods_written(values).len()) as nat).symbol),
    ensures
        methods(input, at, found) == Ok::<(Map<Seq<char>, MethodView>, nat), ErrorView>(
            (table_of(values, found), methods_written(values).len()),
        ),
    decreases values.len(),
{
    lemma_methods_step(input, at, found);
    if values.len() > 0 {
        let first = method_written(values[0]);
        let others = values.drop_first();
        let rest = methods_written(others);
        lemma_holds_parts(input, at, first, rest);
        assert(method_fits(values[0]));
        lemma_method_is_read(input, at, values[0]);
        assert(input.token(at) == first[0]);
        assert(methods_all_fit(others)) by {
            assert forall|i: int| 0 <= i < others.len() implies method_fits(
                #[trigger] others[i],
            ) by {
                assert(others[i] == values[i + 1]);
            }
        }
        lemma_methods_are_read(
            input,
            at + first.len(),
            others,
            found.insert(method_name(values[0]), values[0]),
        );
    }
}

/// The parser reads one side of a class from the tokens that write it.
pub proof fn lemma_side_is_read(
    input: Input,
    at: nat,
    variables: Seq<Seq<char>>,
    values: Seq<MethodView>,
)
    requires
        input.tokens.end is End,
        methods_all_fit(values),
        holds_tokens(input, at, side_written(variables, values)),
        at + side_written(variables, values).len() < input.len(),
        !starts_pattern(input.token((at + side_written(variables, values).len()) as nat).symbol),
    ensures
        members(input, at) == Ok::<
            ((Seq<Seq<char>>, Map<Seq<char>, MethodView>), nat),
            ErrorView,
        >(
            (
                (variables, table_of(values, Map::<Seq<char>, MethodView>::empty())),
                side_written(variables, values).len(),
            ),
        ),
{
    reveal(members);
    let bar = seq![sign(Symbol::Or)];
    let names = names_written(variables);
    let rest = methods_written(values);
    lemma_lengths(variables);
    lemma_holds_parts(input, at, bar + names + bar, rest);
    lemma_holds_parts(input, at, bar + names, bar);
    lemma_holds_parts(input, at, bar, names);
    assert(input.token(at) == bar[0]);
    assert(input.token((at + 1 + names.len()) as nat) == bar[0]);
    lemma_names_are_read(input, at + 1, variables);
    lemma_methods_are_read(
        input,
        at + 2 + names.len(),
        values,
        Map::<Seq<char>, MethodView>::empty(),
    );
}

/// The class that a class is with its methods listed in some order: the
/// class whose tables hold the methods of the lists.
pub open spec fn class_of(
    class: ClassView,
    instance_methods: Seq<MethodView>,
    class_methods: Seq<MethodView>,
) -> ClassView {
    ClassView {
        name: class.name,
        superclass: class.superclass,
        instance_methods: table_of(instance_methods, Map::empty()),
        instance_variables: class.instance_variables,
        class_methods: table_of(class_methods, Map::empty()),
        class_variables: class.class_variables,
    }
}

/// The methods that the parser reads one behind the other from `at` on.
pub open spec fn methods_read(input: Input, at: nat) -> Seq<MethodView>
    decreases input.left(at),
{
    match input.peek(at) {
        Ok(token) => if starts_pattern(token.symbol) {
            match method(input, at) {
                Ok(((_, value), count)) => {
                    proof {
                        lemma_method_advances(input, at);
                    }
                    seq![value] + methods_read(input, at + count)
                },
                Err(_) => Seq::empty(),
            }
        } else {
            Seq::empty()
        },
        Err(_) => Seq::empty(),
    }
}

/// The table of the methods that the parser reads holds the methods that it
/// reads one behind the other, and they fit.
pub proof fn lemma_methods_are_listed(
    input: Input,
    at: nat,
    found: Map<Seq<char>, MethodView>,
)
    requires
        tokens_well_formed(input),
    ensures
        methods(input, at, found) matches Ok((all, _)) ==> all == table_of(
            methods_read(input, at),
            found,
        ) && methods_all_fit(methods_read(input, at)),
    decreases input.left(at),
{
    lemma_methods_step(input, at, found);
    match input.peek(at) {
        Ok(token) => {
            if starts_pattern(token.symbol) {
                lemma_method_fits(input, at);
                lemma_method_advances(input, at);
                match method(input, at) {
                    Ok(((name, value), count)) => {
                        lemma_methods_are_listed(input, at + count, found.insert(name, value));
                        let others = methods_read(input, at + count);
                        let all = seq![value] + others;
                        assert(all.drop_first() =~= others);
                        assert(methods_read(input, at) == all);
                        if methods(input, at, found) is Ok {
                            assert forall|i: int| 0 <= i < all.len() implies method_fits(
                                #[trigger] all[i],
                            ) by {
                                if i > 0 {
                                    assert(all[i] == others[i - 1]);
                                }
                            }
                        }
                    },
                    Err(_) => {},
                }
            }
        },
        Err(_) => {},
    }
}

/// Well-formed tokens one behind the other are well formed.
pub proof fn lemma_well_formed_parts(first: Seq<TokenView>, second: Seq<TokenView>)
    requires
        all_well_formed(first),
        all_well_formed(second),
    ensures
        all_well_formed(first + second),
{
    let all = first + second;
    assert forall|i: int| 0 <= i < all.len() implies well_formed(#[trigger] all[i]) by {
        if i < first.len() {
            assert(all[i] == first[i]);
        } else {
            assert(all[i] == second[i - first.len()]);
        }
    }
}

/// The tokens that write names are well formed.
pub proof fn lemma_names_are_well_formed(names: Seq<Seq<char>>)
    requires
        all_names(names),
    ensures
        all_well_formed(targets_written(names)),
        all_well_formed(colon_names_written(names)),
        all_well_formed(names_written(names)),
        all_well_formed(parameters_written(names)),
        all_well_formed(locals_written(names)),
    decreases names.len(),
{
    if names.len() > 0 {
        let others = names.drop_first();
        assert(is_word(names[0]));
        assert(all_names(others)) by {
            assert forall|i: int| 0 <= i < others.len() implies is_word(#[trigger] others[i]) by {
                assert(others[i] == names[i + 1]);
            }
        }
        lemma_names_are_well_formed(others);
        let name = word(Symbol::Identifier, names[0]);
        assert(well_formed(name));
        lemma_well_formed_parts(seq![name, sign(Symbol::Assign)], targets_written(others));
        lemma_well_formed_parts(seq![sign(Symbol::Colon), name], colon_names_written(others));
        lemma_well_formed_parts(seq![name], names_written(others));
        let bar = seq![sign(Symbol::Or)];
        lemma_well_formed_parts(colon_names_written(names), bar);
        lemma_well_formed_parts(bar, names_written(names));
        lemma_well_formed_parts(bar + names_written(names), bar);
    }
}

/// The token that writes a binary selector is well formed.
pub proof fn lemma_operator_is_well_formed(message: Seq<char>)
    requires
        is_operator_text(message),
    ensures
        well_formed(operator_token(message)),
{
}

/// The tokens that write an expression that fits are well formed.
pub proof fn lemma_written_is_well_formed(value: ExpressionView)
    requires
        fits(value) || statement_fits(value),
    ensures
        all_well_formed(written(value)),
        all_well_formed(operand_written(value)),
    decreases value, 1nat,
{
    let open = seq![sign(Symbol::NewTerm)];
    let close = seq![sign(Symbol::EndTerm)];
    match value {
        ExpressionView::Assignment { variables, value: assigned } => {
            lemma_names_are_well_formed(variables);
            lemma_written_is_well_formed(*assigned);
            lemma_well_formed_parts(targets_written(variables), operand_written(*assigned));
        },
        ExpressionView::BinaryMessage { message, left, right } => {
            lemma_written_is_well_formed(*left);
            lemma_written_is_well_formed(*right);
            lemma_operator_is_well_formed(message);
            let operator = seq![operator_token(message)];
            lemma_well_formed_parts(operand_written(*left), operator);
            lemma_well_formed_parts(operand_written(*left) + operator, operand_written(*right));
        },
        ExpressionView::Block { parameters, locals, body } => {
            lemma_names_are_well_formed(parameters);
            lemma_names_are_well_formed(locals);
            lemma_statements_are_well_formed(body);
            let first = seq![sign(Symbol::NewBlock)];
            let last = seq![sign(Symbol::EndBlock)];
            lemma_well_formed_parts(first, parameters_written(parameters));
            lemma_well_formed_parts(first + parameters_written(parameters), locals_written(locals));
            lemma_well_formed_parts(
                first + parameters_written(parameters) + locals_written(locals),
                statements_written(body),
            );
            lemma_well_formed_parts(
                first + parameters_written(parameters) + locals_written(locals)
                    + statements_written(body),
                last,
            );
        },
        ExpressionView::KeywordMessage { message, receiver, parameters } => {
            lemma_written_is_well_formed(*receiver);
            lemma_arguments_are_well_formed(message, parameters);
            lemma_well_formed_parts(
                operand_written(*receiver),
                arguments_written(message, parameters),
            );
        },
        ExpressionView::LiteralBoolean(flag) => {
            reveal_strlit("true");
            reveal_strlit("false");
            reveal_strlit("primitive");
            let text = if flag {
                "true"@
            } else {
                "false"@
            };
            assert(is_word(text));
        },
        ExpressionView::LiteralInteger(number) => {
            if number < 0 {
                lemma_digits((-number) as nat);
            } else {
                lemma_digits(number as nat);
            }
        },
        ExpressionView::LiteralNil => {
            reveal_strlit("nil");
            reveal_strlit("primitive");
            assert(is_word("nil"@));
        },
        ExpressionView::Return(returned) => {
            lemma_written_is_well_formed(*returned);
            lemma_well_formed_parts(seq![sign(Symbol::Exit)], written(*returned));
        },
        ExpressionView::UnaryMessage { message, receiver } => {
            lemma_written_is_well_formed(*receiver);
            lemma_well_formed_parts(
                operand_written(*receiver),
                seq![word(Symbol::Identifier, message)],
            );
        },
        _ => {},
    }
    if !is_primary(value) {
        lemma_well_formed_parts(open, written(value));
        lemma_well_formed_parts(open + written(value), close);
    }
}

/// The tokens that write statements that fit are well formed.
pub proof fn lemma_statements_are_well_formed(statements: Seq<ExpressionView>)
    requires
        all_fit(statements),
    ensures
        all_well_formed(statements_written(statements)),
    decreases statements, 0nat,
{
    if statements.len() > 0 {
        assert(statement_fits(statements[0]));
        lemma_written_is_well_formed(statements[0]);
        if statements.len() > 1 {
            let others = statements.drop_first();
            assert(all_fit(others)) by {
                assert forall|i: int| 0 <= i < others.len() implies statement_fits(
                    #[trigger] others[i],
                ) by {
                    assert(others[i] == statements[i + 1]);
                }
            }
            lemma_statements_are_well_formed(others);
            let period = seq![sign(Symbol::Period)];
            lemma_well_formed_parts(written(statements[0]), period);
            lemma_well_formed_parts(written(statements[0]) + period, statements_written(others));
        }
    }
}

/// The tokens that write the keywords of a message with their arguments are
/// well formed.
pub proof fn lemma_arguments_are_well_formed(message: Seq<char>, parameters: Seq<ExpressionView>)
    requires
        keyword_selector(message, parameters.len()),
        arguments_fit(parameters),
    ensures
        all_well_formed(arguments_written(message, parameters)),
    decreases parameters, 0nat,
{
    if parameters.len() > 0 {
        lemma_first_keyword(message, parameters.len());
        let colon = colon_at(message, 0);
        let text = message.take(colon + 1);
        assert(text.drop_last() =~= message.take(colon));
        let keyword = seq![word(Symbol::Keyword, text)];
        assert(well_formed(keyword[0]));
        let others = parameters.drop_first();
        assert(fits(parameters[0]));
        lemma_written_is_well_formed(parameters[0]);
        assert(arguments_fit(others)) by {
            assert forall|i: int| 0 <= i < others.len() implies fits(#[trigger] others[i]) by {
                assert(others[i] == parameters[i + 1]);
            }
        }
        lemma_arguments_are_well_formed(message.skip(colon + 1), others);
        lemma_well_formed_parts(keyword, operand_written(parameters[0]));
        lemma_well_formed_parts(
            keyword + operand_written(parameters[0]),
            arguments_written(message.skip(colon + 1), others),
        );
    }
}

/// The lexer makes of the text that spells well-formed tokens an input of
/// these tokens and no others.
pub proof fn lemma_spelled_input(tokens: Seq<TokenView>, filename: Seq<char>)
    requires
        all_well_formed(tokens),
    ensures
        input_from(spelled(tokens), filename).tokens.end is End,
        input_from(spelled(tokens), filename).len() == tokens.len(),
        holds_tokens(input_from(spelled(tokens), filename), 0, tokens),
{
    let nothing = Seq::<char>::empty();
    lemma_spelled_is_lexed(nothing, tokens);
    assert(nothing + spelled(tokens) =~= spelled(tokens));
    let input = input_from(spelled(tokens), filename);
    let items = input.tokens.items;
    assert(tokens_of(items) == tokens);
    assert(items.len() == tokens.len());
    assert forall|i: int| 0 <= i < tokens.len() implies input.token((0 + i) as nat)
        == #[trigger] tokens[i] by {
        assert(tokens_of(items)[i] == items[i].token);
    }
}

/// Written as a text and read again, an expression of the shape that the
/// parser gives to expressions is the same.
pub proof fn lemma_expression_text_is_read(value: ExpressionView, filename: Seq<char>)
    requires
        fits(value),
    ensures
        expression(input_from(spelled(written(value)), filename), 0) == Ok::<
            (ExpressionView, nat),
            ErrorView,
        >((value, written(value).len())),
{
    lemma_written_is_well_formed(value);
    lemma_spelled_input(written(value), filename);
    lemma_expression_is_read(input_from(spelled(written(value)), filename), 0, value);
}

/// Written as a text and read again, statements of the shape that the
/// parser gives to statements are the same.
pub proof fn lemma_statements_text_is_read(statements: Seq<ExpressionView>, filename: Seq<char>)
    requires
        all_fit(statements),
    ensures
        block_body(input_from(spelled(statements_written(statements)), filename), 0) == Ok::<
            (Seq<ExpressionView>, nat),
            ErrorView,
        >((statements, statements_written(statements).len())),
{
    lemma_statements_are_well_formed(statements);
    lemma_spelled_input(statements_written(statements), filename);
    lemma_statements_are_read(
        input_from(spelled(statements_written(statements)), filename),
        0,
        statements,
    );
}

/// For every text: the statements that the parser reads from it are read
/// again from the text that writes them.
pub proof fn lemma_statements_text_is_read_again(chars: Seq<char>, filename: Seq<char>)
    ensures
        block_body(input_from(chars, filename), 0) matches Ok((statements, _)) ==> block_body(
            input_from(spelled(statements_written(statements)), filename),
            0,
        ) == Ok::<(Seq<ExpressionView>, nat), ErrorView>(
            (statements, statements_written(statements).len()),
        ),
{
    let input = input_from(chars, filename);
    lemma_tokens_well_formed(chars, 0);
    lemma_block_body_fits(input, 0);
    match block_body(input, 0) {
        Ok((statements, _)) => {
            lemma_statements_text_is_read(statements, filename);
        },
        Err(_) => {},
    }
}

/// For every text: the expression that the parser reads from it is read
/// again from the text that writes it.
pub proof fn lemma_expression_text_is_read_again(chars: Seq<char>, filename: Seq<char>)
    ensures
        expression(input_from(chars, filename), 0) matches Ok((value, _)) ==> expression(
            input_from(spelled(written(value)), filename),
            0,
        ) == Ok::<(ExpressionView, nat), ErrorView>((value, written(value).len())),
{
    let input = input_from(chars, filename);
    lemma_tokens_well_formed(chars, 0);
    lemma_expression_fits(input, 0);
    match expression(input, 0) {
        Ok((value, _)) => {
            lemma_expression_text_is_read(value, filename);
        },
        Err(_) => {},
    }
}

/// The tokens that write the pattern of a method are well formed.
pub proof fn lemma_pattern_is_well_formed(name: Seq<char>, parameters: Seq<Seq<char>>)
    requires
        pattern_fits(name, parameters),
    ensures
        all_well_formed(pattern_written(name, parameters)),
{
    if parameters.len() == 0 {
    } else if name.last() == ':' {
        lemma_keyword_pattern_is_well_formed(name, parameters);
    } else {
        lemma_operator_is_well_formed(name);
        assert(is_word(parameters[0]));
    }
}

/// The tokens that write the keywords of a pattern with their parameters
/// are well formed.
pub proof fn lemma_keyword_pattern_is_well_formed(name: Seq<char>, parameters: Seq<Seq<char>>)
    requires
        keyword_selector(name, parameters.len()),
        all_names(parameters),
    ensures
        all_well_formed(keyword_pattern_written(name, parameters)),
    decreases parameters.len(),
{
    if parameters.len() > 0 {
        lemma_first_keyword(name, parameters.len());
        let colon = colon_at(name, 0);
        let text = name.take(colon + 1);
        assert(text.drop_last() =~= name.take(colon));
        assert(is_word(parameters[0]));
        let head = seq![word(Symbol::Keyword, text), word(Symbol::Identifier, parameters[0])];
        assert(well_formed(head[0]));
        assert(well_formed(head[1]));
        let others = parameters.drop_first();
        assert(all_names(others)) by {
            assert forall|i: int| 0 <= i < others.len() implies is_word(#[trigger] others[i]) by {
                assert(others[i] == parameters[i + 1]);
            }
        }
        lemma_keyword_pattern_is_well_formed(name.skip(colon + 1), others);
        lemma_well_formed_parts(head, keyword_pattern_written(name.skip(colon + 1), others));
    }
}

/// The tokens that write a method that fits are well formed.
pub proof fn lemma_method_is_well_formed(value: MethodView)
    requires
        method_fits(value),
    ensures
        all_well_formed(method_written(value)),
{
    match value {
        MethodView::Primitive { name, parameters } => {
            lemma_pattern_is_well_formed(name, parameters);
            lemma_well_formed_parts(
                pattern_written(name, parameters),
                seq![sign(Symbol::Equal), sign(Symbol::Primitive)],
            );
        },
        MethodView::Native { name, parameters, locals, body } => {
            lemma_pattern_is_well_formed(name, parameters);
            lemma_names_are_well_formed(locals);
            lemma_statements_are_well_formed(body);
            let first = pattern_written(name, parameters);
            let open = seq![sign(Symbol::Equal), sign(Symbol::NewTerm)];
            lemma_well_formed_parts(first, open);
            lemma_well_formed_parts(first + open, locals_written(locals));
            lemma_well_formed_parts(
                first + open + locals_written(locals),
                statements_written(body),
            );
            lemma_well_formed_parts(
                first + open + locals_written(locals) + statements_written(body),
                seq![sign(Symbol::EndTerm)],
            );
        },
    }
}

/// The tokens that write methods that fit are well formed.
pub proof fn lemma_methods_are_well_formed(values: Seq<MethodView>)
    requires
        methods_all_fit(values),
    ensures
        all_well_formed(methods_written(values)),
    decreases values.len(),
{
    if values.len() > 0 {
        let others = values.drop_first();
        assert(method_fits(values[0]));
        lemma_method_is_well_formed(values[0]);
        assert(methods_all_fit(others)) by {
            assert forall|i: int| 0 <= i < others.len() implies method_fits(
                #[trigger] others[i],
            ) by {
                assert(others[i] == values[i + 1]);
            }
        }
        lemma_methods_are_well_formed(others);
        lemma_well_formed_parts(method_written(values[0]), methods_written(others));
    }
}

/// The tokens that write a class that fits are well formed.
pub proof fn lemma_class_is_well_formed(
    value: ClassView,
    instance_methods: Seq<MethodView>,
    class_methods: Seq<MethodView>,
)
    requires
        is_word(value.name),
        is_word(value.superclass),
        all_names(value.instance_variables),
        all_names(value.class_variables),
        methods_all_fit(instance_methods),
        methods_all_fit(class_methods),
    ensures
        all_well_formed(class_written(value, instance_methods, class_methods)),
{
    let head = seq![
        word(Symbol::Identifier, value.name),
        sign(Symbol::Equal),
        word(Symbol::Identifier, value.superclass),
        sign(Symbol::NewTerm),
    ];
    let bar = seq![sign(Symbol::Or)];
    lemma_names_are_well_formed(value.instance_variables);
    lemma_names_are_well_formed(value.class_variables);
    lemma_methods_are_well_formed(instance_methods);
    lemma_methods_are_well_formed(class_methods);
    let first = side_written(value.instance_variables, instance_methods);
    let second = side_written(value.class_variables, class_methods);
    lemma_well_formed_parts(bar, names_written(value.instance_variables));
    lemma_well_formed_parts(bar + names_written(value.instance_variables), bar);
    lemma_well_formed_parts(
        bar + names_written(value.instance_variables) + bar,
        methods_written(instance_methods),
    );
    lemma_well_formed_parts(bar, names_written(value.class_variables));
    lemma_well_formed_parts(bar + names_written(value.class_variables), bar);
    lemma_well_formed_parts(
        bar + names_written(value.class_variables) + bar,
        methods_written(class_methods),
    );
    let separator = seq![sign(Symbol::Separator)];
    let close = seq![sign(Symbol::EndTerm)];
    lemma_well_formed_parts(head, first);
    lemma_well_formed_parts(head + first, separator);
    lemma_well_formed_parts(head + first + separator, second);
    lemma_well_formed_parts(head + first + separator + second, close);
}

/// The parser reads a class from the tokens that write it, wherever these
/// tokens come from.
pub proof fn lemma_class_is_read(
    input: Input,
    value: ClassView,
    instance_methods: Seq<MethodView>,
    class_methods: Seq<MethodView>,
)
    requires
        input.tokens.end is End,
        methods_all_fit(instance_methods),
        methods_all_fit(class_methods),
        holds_tokens(input, 0, class_written(value, instance_methods, class_methods)),
    ensures
        class(input, 0) == Ok::<(ClassView, nat), ErrorView>(
            (
                class_of(value, instance_methods, class_methods),
                class_written(value, instance_methods, class_methods).len(),
            ),
        ),
{
    reveal(class);
    reveal(sides);
    let tokens = class_written(value, instance_methods, class_methods);
    let head = seq![
        word(Symbol::Identifier, value.name),
        sign(Symbol::Equal),
        word(Symbol::Identifier, value.superclass),
        sign(Symbol::NewTerm),
    ];
    let first = side_written(value.instance_variables, instance_methods);
    let separator = seq![sign(Symbol::Separator)];
    let second = side_written(value.class_variables, class_methods);
    let close = seq![sign(Symbol::EndTerm)];
    assert(tokens == head + first + separator + second + close);
    lemma_holds_parts(input, 0, head + first + separator + second, close);
    lemma_holds_parts(input, 0, head + first + separator, second);
    lemma_holds_parts(input, 0, head + first, separator);
    lemma_holds_parts(input, 0, head, first);
    assert(input.token(0) == head[0]);
    assert(input.token(1) == head[1]);
    assert(input.token(2) == head[2]);
    assert(input.token(3) == head[3]);
    let p1 = (4 + first.len()) as nat;
    let p2 = (p1 + 1 + second.len()) as nat;
    assert(input.token(p1) == separator[0]);
    assert(input.token(p2) == close[0]);
    lemma_side_is_read(input, 4, value.instance_variables, instance_methods);
    lemma_side_is_read(input, p1 + 1, value.class_variables, class_methods);
}

/// Whether a class is read again from the text that writes it with its
/// methods listed in this order.
pub open spec fn is_read_again_from_text(
    value: ClassView,
    instance_methods: Seq<MethodView>,
    class_methods: Seq<MethodView>,
    filename: Seq<char>,
) -> bool {
    class(
        input_from(spelled(class_written(value, instance_methods, class_methods)), filename),
        0,
    ) == Ok::<(ClassView, nat), ErrorView>(
        (value, class_written(value, instance_methods, class_methods).len()),
    )
}

/// For every text: the class that the parser reads from it is read again
/// from a text that writes it. Written and read again, the class is the
/// same.
pub proof fn lemma_class_text_is_read_again(chars: Seq<char>, filename: Seq<char>)
    ensures
        class(input_from(chars, filename), 0) matches Ok((value, _)) ==> exists|
            instance_methods: Seq<MethodView>,
            class_methods: Seq<MethodView>,
        | is_read_again_from_text(value, instance_methods, class_methods, filename),
{
    let input = input_from(chars, filename);
    lemma_tokens_well_formed(chars, 0);
    lemma_class_fits(input, 0);
    reveal(class);
    reveal(sides);
    reveal(members);
    let empty = Map::<Seq<char>, MethodView>::empty();
    match class(input, 0) {
        Ok((value, _)) => {
            let first = superclass_name(input, 2)->Ok_0.1;
            let start = (3 + first) as nat;
            let second = locals(input, start)->Ok_0.1;
            let instance_methods = methods_read(input, start + second);
            lemma_methods_are_listed(input, start + second, empty);
            let all = members(input, start)->Ok_0.1;
            let next = (start + all) as nat;
            let class_methods = if input.holds(next, Symbol::Separator) {
                methods_read(input, next + 1 + locals(input, next + 1)->Ok_0.1)
            } else {
                Seq::<MethodView>::empty()
            };
            if input.holds(next, Symbol::Separator) {
                let third = locals(input, next + 1)->Ok_0.1;
                lemma_methods_are_listed(input, next + 1 + third, empty);
            }
            assert(class_of(value, instance_methods, class_methods) == value);
            let tokens = class_written(value, instance_methods, class_methods);
            lemma_class_is_well_formed(value, instance_methods, class_methods);
            lemma_spelled_input(tokens, filename);
            lemma_class_is_read(
                input_from(spelled(tokens), filename),
                value,
                instance_methods,
                class_methods,
            );
            assert(is_read_again_from_text(value, instance_methods, class_methods, filename));
        },
        Err(_) => {},
    }
}

} // verus!