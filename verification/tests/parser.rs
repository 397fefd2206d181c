use som::compiler::ast;
use som::compiler::parser::{
    binary_symbol_to_string, is_binary_operator, parse_integer, Error, Parser,
};
use som::compiler::{Symbol, Token};
use som::util::peekable_buffer::Location;

#[test]
fn parse_error() {
    let source = "Hello";
    let mut parser = Parser::new(source, "test");
    let result = parser.expect(Symbol::Double);
    assert_eq!(
        result,
        Err(Error::ParseError {
            description: "Expected [Double], found Identifier".to_string(),
            filename: "test".to_string(),
            line: 1,
            position: 1,
        })
    );
}

#[test]
fn parse_error_position_information() {
    let source = " \n  World";
    let mut parser = Parser::new(source, "test");
    let result = parser.expect(Symbol::Double);
    assert_eq!(
        result,
        Err(Error::ParseError {
            description: "Expected [Double], found Identifier".to_string(),
            filename: "test".to_string(),
            line: 2,
            position: 3,
        })
    );
}

#[test]
fn parse_method_primitive() {
    let source = "hello = primitive";
    let mut parser = Parser::new(source, "test");
    let (_, method) = parser.parse_method().unwrap();
    assert_eq!(method, ast::Method::Primitive { name: "hello".to_string(), parameters: vec![] });
}

#[test]
fn parse_assignment() {
    let source = "a := 'test'";
    let mut parser = Parser::new(source, "test");
    let statements = parser.parse_block_body().unwrap();
    let statement = statements.first().unwrap();
    assert_eq!(
        statement,
        &ast::Expression::Assignment {
            variables: vec!["a".to_string()],
            value: Box::new(ast::Expression::LiteralString("test".to_string())),
        }
    );
}

#[test]
fn parse_multiple_assignment() {
    let source = "a := b := 'test'";
    let mut parser = Parser::new(source, "test");
    let statements = parser.parse_block_body().unwrap();
    let statement = statements.first().unwrap();
    assert_eq!(
        statement,
        &ast::Expression::Assignment {
            variables: vec!["a".to_string(), "b".to_string()],
            value: Box::new(ast::Expression::LiteralString("test".to_string())),
        }
    );
}

#[test]
fn parse_body_evaluation() {
    let source = "'test' println";
    let mut parser = Parser::new(source, "test");
    let statements = parser.parse_block_body().unwrap();
    let statement = statements.first().unwrap();
    assert_eq!(
        statement,
        &ast::Expression::UnaryMessage {
            message: "println".to_string(),
            receiver: Box::new(ast::Expression::LiteralString("test".to_string())),
        }
    );
}

#[test]
fn nested_block_expression() {
    let source = "[ :arg | arg print. ' ' print ]";
    let mut parser = Parser::new(source, "test");
    let expression = parser.parse_expression().unwrap();
    assert_eq!(
        expression,
        ast::Expression::Block {
            parameters: vec!["arg".to_string()],
            locals: vec![],
            body: vec![
                ast::Expression::UnaryMessage {
                    message: "print".to_string(),
                    receiver: Box::new(ast::Expression::Variable("arg".to_string())),
                },
                ast::Expression::UnaryMessage {
                    message: "print".to_string(),
                    receiver: Box::new(ast::Expression::LiteralString(" ".to_string())),
                },
            ],
        }
    );
}

#[test]
fn variable_expression() {
    let source = "a";
    let mut parser = Parser::new(source, "test");
    let expression = parser.parse_expression().unwrap();
    assert_eq!(expression, ast::Expression::Variable("a".to_string()));
}

#[test]
fn literal_string_expression() {
    let source = "'test'";
    let mut parser = Parser::new(source, "test");
    let expression = parser.parse_expression().unwrap();
    assert_eq!(expression, ast::Expression::LiteralString("test".to_string()));
}

#[test]
fn literal_nil_expression() {
    let source = "nil";
    let mut parser = Parser::new(source, "test");
    let expression = parser.parse_expression().unwrap();
    assert_eq!(expression, ast::Expression::LiteralNil);
}

#[test]
fn literal_boolean_expression() {
    let source = "true || false";
    let mut parser = Parser::new(source, "test");
    let expression = parser.parse_expression().unwrap();
    assert_eq!(
        expression,
        ast::Expression::BinaryMessage {
            message: "||".to_string(),
            left: Box::new(ast::Expression::LiteralBoolean(true)),
            right: Box::new(ast::Expression::LiteralBoolean(false)),
        }
    );
}

#[test]
fn literal_symbol_expression() {
    let source = "#test #'test-case' #run:with:";
    let mut parser = Parser::new(source, "test");
    let expression = parser.parse_expression().unwrap();
    assert_eq!(expression, ast::Expression::LiteralSymbol("test".to_string()));
    let expression = parser.parse_expression().unwrap();
    assert_eq!(expression, ast::Expression::LiteralSymbol("test-case".to_string()));
    let expression = parser.parse_expression().unwrap();
    assert_eq!(expression, ast::Expression::LiteralSymbol("run:with:".to_string()));
}

#[test]
fn literal_integer_expression() {
    let source = "1";
    let mut parser = Parser::new(source, "test");
    let expression = parser.parse_expression().unwrap();
    assert_eq!(expression, ast::Expression::LiteralInteger(1));
}

#[test]
fn literal_negative_integer_expression() {
    let source = "-1";
    let mut parser = Parser::new(source, "test");
    let expression = parser.parse_expression().unwrap();
    assert_eq!(expression, ast::Expression::LiteralInteger(-1));
}

fn double_of(expression: ast::Expression) -> f64 {
    match expression {
        ast::Expression::LiteralDouble(decimal) => {
            let value: f64 = decimal.lexeme.parse().unwrap();
            if decimal.negative {
                -value
            } else {
                value
            }
        }
        other => panic!("no double: {:?}", other),
    }
}

#[test]
fn literal_negative_double_expression() {
    let source = "-3.14";
    let mut parser = Parser::new(source, "test");
    let expression = parser.parse_expression().unwrap();
    assert_eq!(double_of(expression), -3.14);
}

#[test]
fn literal_double_expression() {
    let source = "3.14";
    let mut parser = Parser::new(source, "test");
    let expression = parser.parse_expression().unwrap();
    assert_eq!(double_of(expression), 3.14);
}

#[test]
fn unary_message_expression() {
    let source = "1 println";
    let mut parser = Parser::new(source, "test");
    let expression = parser.parse_expression().unwrap();
    assert_eq!(
        expression,
        ast::Expression::UnaryMessage {
            message: "println".to_string(),
            receiver: Box::new(ast::Expression::LiteralInteger(1)),
        }
    );
}

#[test]
fn multiple_unary_messages() {
    let source = "1 test println";
    let mut parser = Parser::new(source, "test");
    let expression = parser.parse_expression().unwrap();
    assert_eq!(
        expression,
        ast::Expression::UnaryMessage {
            message: "println".to_string(),
            receiver: Box::new(ast::Expression::UnaryMessage {
                message: "test".to_string(),
                receiver: Box::new(ast::Expression::LiteralInteger(1)),
            }),
        }
    );
}

#[test]
fn keyword_message_expression() {
    let source = "1 with: a and: b";
    let mut parser = Parser::new(source, "test");
    let expression = parser.parse_expression().unwrap();
    assert_eq!(
        expression,
        ast::Expression::KeywordMessage {
            message: "with:and:".to_string(),
            parameters: vec![
                ast::Expression::Variable("a".to_string()),
                ast::Expression::Variable("b".to_string()),
            ],
            receiver: Box::new(ast::Expression::LiteralInteger(1)),
        }
    );
}

#[test]
fn complex_keyword_message_expression() {
    let source = "1 with: a length and: 1 + 2";
    let mut parser = Parser::new(source, "test");
    let expression = parser.parse_expression().unwrap();
    println!("expression: {:#?}", expression);
    assert_eq!(
        expression,
        ast::Expression::KeywordMessage {
            message: "with:and:".to_string(),
            parameters: vec![
                ast::Expression::UnaryMessage {
                    message: "length".to_string(),
                    receiver: Box::new(ast::Expression::Variable("a".to_string())),
                },
                ast::Expression::BinaryMessage {
                    message: "+".to_string(),
                    left: Box::new(ast::Expression::LiteralInteger(1)),
                    right: Box::new(ast::Expression::LiteralInteger(2)),
                },
            ],
            receiver: Box::new(ast::Expression::LiteralInteger(1)),
        }
    );
}

#[test]
fn binary_message_expression() {
    let source = "1 + 2";
    let mut parser = Parser::new(source, "test");
    let expression = parser.parse_expression().unwrap();
    assert_eq!(
        expression,
        ast::Expression::BinaryMessage {
            message: "+".to_string(),
            left: Box::new(ast::Expression::LiteralInteger(1)),
            right: Box::new(ast::Expression::LiteralInteger(2)),
        }
    );
}

#[test]
fn operator_sequence_expression() {
    let source = "1 <= 2";
    let mut parser = Parser::new(source, "test");
    let expression = parser.parse_expression().unwrap();
    assert_eq!(
        expression,
        ast::Expression::BinaryMessage {
            message: "<=".to_string(),
            left: Box::new(ast::Expression::LiteralInteger(1)),
            right: Box::new(ast::Expression::LiteralInteger(2)),
        }
    );
}

#[test]
fn nested_terms() {
    let source = "1 + (2 - 1)";
    let mut parser = Parser::new(source, "test");
    let expression = parser.parse_expression().unwrap();
    println!("expression: {:#?}", expression);
    assert_eq!(
        expression,
        ast::Expression::BinaryMessage {
            message: "+".to_string(),
            left: Box::new(ast::Expression::LiteralInteger(1)),
            right: Box::new(ast::Expression::BinaryMessage {
                message: "-".to_string(),
                left: Box::new(ast::Expression::LiteralInteger(2)),
                right: Box::new(ast::Expression::LiteralInteger(1)),
            }),
        }
    );
}

#[test]
fn unary_message_binds_higher() {
    let source = "1 test + 2";
    let mut parser = Parser::new(source, "test");
    let expression = parser.parse_expression().unwrap();
    assert_eq!(
        expression,
        ast::Expression::BinaryMessage {
            message: "+".to_string(),
            left: Box::new(ast::Expression::UnaryMessage {
                receiver: Box::new(ast::Expression::LiteralInteger(1)),
                message: "test".to_string(),
            }),
            right: Box::new(ast::Expression::LiteralInteger(2)),
        }
    );
}

#[test]
fn superclass_parsing() {
    let source = "Hello = Test ()";
    let mut parser = Parser::new(source, "test");
    let class = parser.parse_class().unwrap();
    assert_eq!(class.superclass, "Test");
    assert_eq!(class.name, "Hello");
}

#[test]
fn method_with_locals() {
    let source = "
        test = ( |a b|
            a println
        )
        ";
    let mut parser = Parser::new(source, "test");
    let (_, method) = parser.parse_method().unwrap();
    assert_eq!(
        method,
        ast::Method::Native {
            name: "test".to_string(),
            parameters: vec![],
            locals: vec!["a".to_string(), "b".to_string()],
            body: vec![ast::Expression::UnaryMessage {
                receiver: Box::new(ast::Expression::Variable("a".to_string())),
                message: "println".to_string(),
            },],
        }
    );
}

#[test]
fn method_with_multiple_statements() {
    let source = "
        test = ( |a b|
            a println.
            b println.
        )
        ";
    let mut parser = Parser::new(source, "test");
    let (_, method) = parser.parse_method().unwrap();
    assert_eq!(
        method,
        ast::Method::Native {
            name: "test".to_string(),
            parameters: vec![],
            locals: vec!["a".to_string(), "b".to_string()],
            body: vec![
                ast::Expression::UnaryMessage {
                    receiver: Box::new(ast::Expression::Variable("a".to_string())),
                    message: "println".to_string(),
                },
                ast::Expression::UnaryMessage {
                    receiver: Box::new(ast::Expression::Variable("b".to_string())),
                    message: "println".to_string(),
                },
            ],
        }
    );
}

#[test]
fn method_with_parameters() {
    let source = "
        test: a with: b = (
            a println
        )
        ";
    let mut parser = Parser::new(source, "test");
    let (_, method) = parser.parse_method().unwrap();
    assert_eq!(
        method,
        ast::Method::Native {
            name: "test:with:".to_string(),
            parameters: vec!["a".to_string(), "b".to_string()],
            locals: vec![],
            body: vec![ast::Expression::UnaryMessage {
                receiver: Box::new(ast::Expression::Variable("a".to_string())),
                message: "println".to_string(),
            },],
        }
    );
}

#[test]
fn method_with_exit() {
    let source = "
        test = (
            ^ 1 + 1.
        )
        ";
    let mut parser = Parser::new(source, "test");
    let (_, method) = parser.parse_method().unwrap();
    assert_eq!(
        method,
        ast::Method::Native {
            name: "test".to_string(),
            parameters: vec![],
            locals: vec![],
            body: vec![ast::Expression::Return(Box::new(ast::Expression::BinaryMessage {
                message: "+".to_string(),
                left: Box::new(ast::Expression::LiteralInteger(1)),
                right: Box::new(ast::Expression::LiteralInteger(1)),
            },)),],
        }
    );
}

fn variable(name: &str) -> ast::Expression {
    ast::Expression::Variable(name.to_string())
}

fn unary(receiver: ast::Expression, message: &str) -> ast::Expression {
    ast::Expression::UnaryMessage { receiver: Box::new(receiver), message: message.to_string() }
}

fn binary(left: ast::Expression, message: &str, right: ast::Expression) -> ast::Expression {
    ast::Expression::BinaryMessage {
        message: message.to_string(),
        left: Box::new(left),
        right: Box::new(right),
    }
}

fn keyword(
    receiver: ast::Expression,
    message: &str,
    parameters: Vec<ast::Expression>,
) -> ast::Expression {
    ast::Expression::KeywordMessage {
        message: message.to_string(),
        receiver: Box::new(receiver),
        parameters,
    }
}

fn integer(value: i64) -> ast::Expression {
    ast::Expression::LiteralInteger(value)
}

fn expression(source: &str) -> Result<ast::Expression, Error> {
    Parser::new(source, "test").parse_expression()
}

fn error_at(description: &str, line: usize, position: usize) -> Error {
    Error::ParseError {
        description: description.to_string(),
        filename: "test".to_string(),
        line,
        position,
    }
}

#[test]
fn empty_class() {
    let class = Parser::new("Hello = ()", "test").parse_class().unwrap();
    assert_eq!(class.name, "Hello");
    assert_eq!(class.superclass, "Object");
    assert_eq!(class.instance_variables, Vec::<String>::new());
    assert!(class.instance_methods.is_empty());
    assert_eq!(class.class_variables, Vec::<String>::new());
    assert!(class.class_methods.is_empty());
    assert_eq!(
        class,
        ast::Class {
            name: "Hello".to_string(),
            superclass: "Object".to_string(),
            instance_methods: ast::Methods::new(),
            instance_variables: vec![],
            class_methods: ast::Methods::new(),
            class_variables: vec![],
        }
    );
}

#[test]
fn class_with_superclass() {
    let class = Parser::new("Hello = Test ()", "test").parse_class().unwrap();
    assert_eq!(
        class,
        ast::Class {
            name: "Hello".to_string(),
            superclass: "Test".to_string(),
            instance_methods: ast::Methods::new(),
            instance_variables: vec![],
            class_methods: ast::Methods::new(),
            class_variables: vec![],
        }
    );
}

#[test]
fn class_with_both_sides() {
    let source = "
        Point = Object (
            | x y |
            x = ( ^ x )
            + other = ( ^ x + other x )
            x: a y: b = ( x := a. y := b )
            ----
            | count |
            new = primitive
            \"comment\"
            <= other = primitive
        )";
    let class = Parser::new(source, "Point.som").parse_class().unwrap();
    assert_eq!(class.name, "Point");
    assert_eq!(class.superclass, "Object");
    assert_eq!(class.instance_variables, vec!["x".to_string(), "y".to_string()]);
    assert_eq!(class.class_variables, vec!["count".to_string()]);
    assert_eq!(class.instance_methods.len(), 3);
    assert_eq!(class.class_methods.len(), 2);
    assert_eq!(class.instance_methods.selector_at(0), "x");
    assert_eq!(class.instance_methods.selector_at(1), "+");
    assert_eq!(class.instance_methods.selector_at(2), "x:y:");
    assert_eq!(
        class.instance_methods.get(&"+".to_string()),
        Some(&ast::Method::Native {
            name: "+".to_string(),
            parameters: vec!["other".to_string()],
            locals: vec![],
            body: vec![ast::Expression::Return(Box::new(binary(
                variable("x"),
                "+",
                unary(variable("other"), "x")
            )))],
        })
    );
    assert_eq!(
        class.instance_methods.method_at(2),
        &ast::Method::Native {
            name: "x:y:".to_string(),
            parameters: vec!["a".to_string(), "b".to_string()],
            locals: vec![],
            body: vec![
                ast::Expression::Assignment {
                    variables: vec!["x".to_string()],
                    value: Box::new(variable("a")),
                },
                ast::Expression::Assignment {
                    variables: vec!["y".to_string()],
                    value: Box::new(variable("b")),
                },
            ],
        }
    );
    assert_eq!(
        class.class_methods.get(&"<=".to_string()),
        Some(&ast::Method::Primitive {
            name: "<=".to_string(),
            parameters: vec!["other".to_string()]
        })
    );
    assert_eq!(class.class_methods.get(&"x".to_string()), None);
}

#[test]
fn later_method_replaces_earlier_one_with_its_selector() {
    let source = "A = ( run = ( 1 ) stop = primitive run = ( 2 ) )";
    let class = Parser::new(source, "test").parse_class().unwrap();
    assert_eq!(class.instance_methods.len(), 2);
    assert_eq!(class.instance_methods.selector_at(0), "run");
    assert_eq!(class.instance_methods.selector_at(1), "stop");
    assert_eq!(
        class.instance_methods.get(&"run".to_string()),
        Some(&ast::Method::Native {
            name: "run".to_string(),
            parameters: vec![],
            locals: vec![],
            body: vec![integer(2)],
        })
    );
}

#[test]
fn methods_table() {
    let mut methods = ast::Methods::new();
    assert!(methods.is_empty());
    assert_eq!(methods.len(), 0);
    let first = ast::Method::Primitive { name: "a".to_string(), parameters: vec![] };
    let second = ast::Method::Primitive { name: "b".to_string(), parameters: vec![] };
    let third = ast::Method::Primitive { name: "a".to_string(), parameters: vec!["x".to_string()] };
    methods.insert("a".to_string(), first.clone());
    methods.insert("b".to_string(), second.clone());
    assert_eq!(methods.len(), 2);
    assert!(!methods.is_empty());
    assert_eq!(methods.get(&"a".to_string()), Some(&first));
    methods.insert("a".to_string(), third.clone());
    assert_eq!(methods.len(), 2);
    assert_eq!(methods.get(&"a".to_string()), Some(&third));
    assert_eq!(methods.get(&"b".to_string()), Some(&second));
    assert_eq!(methods.get(&"c".to_string()), None);
    assert_eq!(methods.selector_at(0), "a");
    assert_eq!(methods.method_at(0), &third);
    assert_eq!(methods.selector_at(1), "b");
    assert_eq!(methods.clone(), methods);
}

#[test]
fn primitive_method_in_method_position() {
    let (name, method) = Parser::new("hello = primitive", "test").parse_method().unwrap();
    assert_eq!(name, "hello");
    assert_eq!(method, ast::Method::Primitive { name: "hello".to_string(), parameters: vec![] });
}

#[test]
fn keyword_method_on_one_line() {
    let (name, method) =
        Parser::new("test: a with: b = ( a println )", "test").parse_method().unwrap();
    assert_eq!(name, "test:with:");
    assert_eq!(
        method,
        ast::Method::Native {
            name: "test:with:".to_string(),
            parameters: vec!["a".to_string(), "b".to_string()],
            locals: vec![],
            body: vec![unary(variable("a"), "println")],
        }
    );
}

#[test]
fn binary_method_patterns() {
    let (name, method) = Parser::new("+ other = primitive", "test").parse_method().unwrap();
    assert_eq!(name, "+");
    assert_eq!(
        method,
        ast::Method::Primitive { name: "+".to_string(), parameters: vec!["other".to_string()] }
    );
    let (name, _) = Parser::new("<= other = primitive", "test").parse_method().unwrap();
    assert_eq!(name, "<=");
    let (name, _) = Parser::new("- other = primitive", "test").parse_method().unwrap();
    assert_eq!(name, "-");
}

#[test]
fn assignment_to_two_variables() {
    assert_eq!(
        expression("a := b := 'test'"),
        Ok(ast::Expression::Assignment {
            variables: vec!["a".to_string(), "b".to_string()],
            value: Box::new(ast::Expression::LiteralString("test".to_string())),
        })
    );
}

#[test]
fn assignment_in_round_brackets_is_an_assignment_of_its_own() {
    assert_eq!(
        expression("a := (b := c)"),
        Ok(ast::Expression::Assignment {
            variables: vec!["a".to_string()],
            value: Box::new(ast::Expression::Assignment {
                variables: vec!["b".to_string()],
                value: Box::new(variable("c")),
            }),
        })
    );
}

#[test]
fn keyword_message_with_unary_and_binary_arguments() {
    assert_eq!(
        expression("1 with: a length and: 1 + 2"),
        Ok(keyword(
            integer(1),
            "with:and:",
            vec![unary(variable("a"), "length"), binary(integer(1), "+", integer(2))]
        ))
    );
}

#[test]
fn block_with_a_parameter() {
    assert_eq!(
        expression("[ :arg | arg print. ' ' print ]"),
        Ok(ast::Expression::Block {
            parameters: vec!["arg".to_string()],
            locals: vec![],
            body: vec![
                unary(variable("arg"), "print"),
                unary(ast::Expression::LiteralString(" ".to_string()), "print"),
            ],
        })
    );
}

#[test]
fn blocks_of_all_shapes() {
    assert_eq!(
        expression("[]"),
        Ok(ast::Expression::Block { parameters: vec![], locals: vec![], body: vec![] })
    );
    assert_eq!(
        expression("[ | t | t ]"),
        Ok(ast::Expression::Block {
            parameters: vec![],
            locals: vec!["t".to_string()],
            body: vec![variable("t")],
        })
    );
    assert_eq!(
        expression("[ :a :b | | t u | ^ a. ]"),
        Ok(ast::Expression::Block {
            parameters: vec!["a".to_string(), "b".to_string()],
            locals: vec!["t".to_string(), "u".to_string()],
            body: vec![ast::Expression::Return(Box::new(variable("a")))],
        })
    );
    assert_eq!(
        expression("[ :a ]"),
        Err(error_at("Expected [Or], found EndBlock", 1, 6))
    );
}

#[test]
fn symbol_literals() {
    assert_eq!(
        expression("#run:with:"),
        Ok(ast::Expression::LiteralSymbol("run:with:".to_string()))
    );
    assert_eq!(expression("#run:"), Ok(ast::Expression::LiteralSymbol("run:".to_string())));
    assert_eq!(expression("#+"), Ok(ast::Expression::LiteralSymbol("+".to_string())));
    assert_eq!(expression("#-"), Ok(ast::Expression::LiteralSymbol("-".to_string())));
    assert_eq!(expression("#\\"), Ok(ast::Expression::LiteralSymbol("\\".to_string())));
    assert_eq!(expression("#<="), Ok(ast::Expression::LiteralSymbol("<=".to_string())));
    assert_eq!(expression("#'a b'"), Ok(ast::Expression::LiteralSymbol("a b".to_string())));
    assert_eq!(
        expression("#1"),
        Err(error_at(
            "Expected [Identifier, String, Keyword, KeywordSequence, OperatorSequence, And, At, \
             Comma, Divide, Equal, Less, Minus, Modulus, More, Not, Or, Percent, Plus, Star], \
             found Integer",
            1,
            2
        ))
    );
    assert_eq!(expression("#"), Err(Error::End));
}

#[test]
fn unary_binds_tighter_than_binary() {
    assert_eq!(
        expression("a + b foo"),
        Ok(binary(variable("a"), "+", unary(variable("b"), "foo")))
    );
}

#[test]
fn binary_messages_group_from_the_left() {
    assert_eq!(
        expression("1 - 2 - 3"),
        Ok(binary(binary(integer(1), "-", integer(2)), "-", integer(3)))
    );
    assert_eq!(
        expression("1 + 2 * 3"),
        Ok(binary(binary(integer(1), "+", integer(2)), "*", integer(3)))
    );
}

#[test]
fn binary_binds_tighter_than_keyword() {
    assert_eq!(
        expression("a + b at: c + d foo"),
        Ok(keyword(
            binary(variable("a"), "+", variable("b")),
            "at:",
            vec![binary(variable("c"), "+", unary(variable("d"), "foo"))]
        ))
    );
}

#[test]
fn keyword_message_in_an_argument_needs_round_brackets() {
    assert_eq!(
        expression("a at: (b at: c) put: d"),
        Ok(keyword(
            variable("a"),
            "at:put:",
            vec![keyword(variable("b"), "at:", vec![variable("c")]), variable("d")]
        ))
    );
    assert_eq!(
        expression("a at: b at: c"),
        Ok(keyword(variable("a"), "at:at:", vec![variable("b"), variable("c")]))
    );
}

#[test]
fn negative_numbers() {
    assert_eq!(expression("-12"), Ok(integer(-12)));
    assert_eq!(expression("1 - -2"), Ok(binary(integer(1), "-", integer(-2))));
    assert_eq!(expression("3 -4"), Ok(binary(integer(3), "-", integer(4))));
    assert_eq!(
        expression("-1.5"),
        Ok(ast::Expression::LiteralDouble(ast::Decimal {
            negative: true,
            lexeme: "1.5".to_string()
        }))
    );
    assert_eq!(
        expression("1.5"),
        Ok(ast::Expression::LiteralDouble(ast::Decimal {
            negative: false,
            lexeme: "1.5".to_string()
        }))
    );
    assert_eq!(
        expression("- a"),
        Err(error_at("Expected [Integer, Double], found Identifier", 1, 3))
    );
}

#[test]
fn integers_at_the_limits() {
    assert_eq!(expression("9223372036854775807"), Ok(integer(i64::MAX)));
    assert_eq!(expression("-9223372036854775807"), Ok(integer(-i64::MAX)));
    assert_eq!(expression("0000000000000000000000012"), Ok(integer(12)));
    assert_eq!(
        expression(" 9223372036854775808"),
        Err(error_at("Integer out of range: 9223372036854775808", 1, 2))
    );
    assert_eq!(
        expression("-9223372036854775808"),
        Err(error_at("Integer out of range: 9223372036854775808", 1, 2))
    );
    assert_eq!(
        expression("123456789012345678901234567890"),
        Err(error_at("Integer out of range: 123456789012345678901234567890", 1, 1))
    );
}

#[test]
fn integer_values() {
    assert_eq!(parse_integer("0"), Some(0));
    assert_eq!(parse_integer("42"), Some(42));
    assert_eq!(parse_integer("007"), Some(7));
    assert_eq!(parse_integer("9223372036854775807"), Some(i64::MAX));
    assert_eq!(parse_integer("9223372036854775808"), None);
    assert_eq!(parse_integer("92233720368547758070"), None);
    assert_eq!(parse_integer(""), None);
    assert_eq!(parse_integer("12a"), None);
    assert_eq!(parse_integer("-1"), None);
    assert_eq!(parse_integer("+1"), None);
    assert_eq!(parse_integer("١٢"), None);
}

#[test]
fn names_of_literals() {
    assert_eq!(expression("nil"), Ok(ast::Expression::LiteralNil));
    assert_eq!(expression("true"), Ok(ast::Expression::LiteralBoolean(true)));
    assert_eq!(expression("false"), Ok(ast::Expression::LiteralBoolean(false)));
    assert_eq!(expression("nill"), Ok(variable("nill")));
    assert_eq!(expression("True"), Ok(variable("True")));
}

#[test]
fn statements_end_before_a_closing_bracket_or_without_a_period() {
    let mut parser = Parser::new("a. b. ) c", "test");
    assert_eq!(parser.parse_block_body(), Ok(vec![variable("a"), variable("b")]));
    assert_eq!(parser.peek(1), Ok(Token(Symbol::EndTerm, None)));
    let mut parser = Parser::new("a b ] c", "test");
    assert_eq!(parser.parse_block_body(), Ok(vec![unary(variable("a"), "b")]));
    assert_eq!(parser.peek(1), Ok(Token(Symbol::EndBlock, None)));
    let mut parser = Parser::new("a. ^ b 1", "test");
    assert_eq!(
        parser.parse_block_body(),
        Ok(vec![variable("a"), ast::Expression::Return(Box::new(variable("b")))])
    );
    assert_eq!(parser.peek(1), Ok(Token(Symbol::Integer, Some("1".to_string()))));
    assert_eq!(Parser::new("", "test").parse_block_body(), Ok(vec![]));
    assert_eq!(Parser::new("a.", "test").parse_block_body(), Ok(vec![variable("a")]));
}

#[test]
fn end_of_input_where_a_token_is_needed() {
    assert_eq!(Parser::new("", "test").parse_class(), Err(Error::End));
    assert_eq!(Parser::new("Hello", "test").parse_class(), Err(Error::End));
    assert_eq!(Parser::new("Hello = (", "test").parse_class(), Err(Error::End));
    assert_eq!(Parser::new("Hello = ( run = ( 1", "test").parse_class(), Err(Error::End));
    assert_eq!(expression(""), Err(Error::End));
    assert_eq!(expression("(1"), Err(Error::End));
    assert_eq!(expression("a foo: "), Err(Error::End));
    assert_eq!(Parser::new("", "test").expect(Symbol::Identifier), Err(Error::End));
    assert_eq!(Parser::new("", "test").peek(1), Err(Error::End));
    assert_eq!(Parser::new("a", "test").peek(2), Err(Error::End));
}

#[test]
fn mismatch_names_what_was_expected_and_found() {
    let mut parser = Parser::new("\n 12 a", "test");
    assert_eq!(
        parser.accept(Symbol::Identifier),
        Err(Error::MismatchError {
            expected: vec![Symbol::Identifier],
            found: Symbol::Integer,
            location: Location(2, 2),
        })
    );
    assert_eq!(
        parser.accept_one_of(&[Symbol::Identifier, Symbol::Keyword]),
        Err(Error::MismatchError {
            expected: vec![Symbol::Identifier, Symbol::Keyword],
            found: Symbol::Integer,
            location: Location(2, 2),
        })
    );
    assert_eq!(
        parser.accept_one_of(&[Symbol::Double, Symbol::Integer]),
        Ok(Token(Symbol::Integer, Some("12".to_string())))
    );
    assert_eq!(
        parser.accept(Symbol::Identifier),
        Ok(Token(Symbol::Identifier, Some("a".to_string())))
    );
    assert_eq!(parser.accept(Symbol::Identifier), Err(Error::End));
}

#[test]
fn parse_error_names_all_that_was_expected() {
    let mut parser = Parser::new("x", "dir/file.som");
    assert_eq!(
        parser.expect_one_of(&[Symbol::Integer, Symbol::Double, Symbol::String]),
        Err(Error::ParseError {
            description: "Expected [Integer, Double, String], found Identifier".to_string(),
            filename: "dir/file.som".to_string(),
            line: 1,
            position: 1,
        })
    );
    assert_eq!(
        parser.expect_one_of(&[]),
        Err(Error::ParseError {
            description: "Expected [], found Identifier".to_string(),
            filename: "dir/file.som".to_string(),
            line: 1,
            position: 1,
        })
    );
    assert_eq!(parser.expect_one_of(&[Symbol::Identifier]), Ok(Some("x".to_string())));
}

#[test]
fn expect_gives_the_text_of_the_token() {
    let mut parser = Parser::new("a := 'b'", "test");
    assert_eq!(parser.expect(Symbol::Identifier), Ok(Some("a".to_string())));
    assert_eq!(parser.expect(Symbol::Assign), Ok(None));
    assert_eq!(parser.expect(Symbol::String), Ok(Some("b".to_string())));
}

#[test]
fn peek_and_consume() {
    let mut parser = Parser::new("a b c d", "test");
    assert_eq!(parser.peek(3), Ok(Token(Symbol::Identifier, Some("c".to_string()))));
    assert_eq!(parser.peek(1), Ok(Token(Symbol::Identifier, Some("a".to_string()))));
    assert_eq!(parser.consume(2), Ok(()));
    assert_eq!(parser.peek(1), Ok(Token(Symbol::Identifier, Some("c".to_string()))));
    assert_eq!(parser.peek(2), Ok(Token(Symbol::Identifier, Some("d".to_string()))));
    assert_eq!(parser.consume(0), Ok(()));
    assert_eq!(parser.peek(1), Ok(Token(Symbol::Identifier, Some("c".to_string()))));
    assert_eq!(parser.consume(5), Ok(()));
    assert_eq!(parser.peek(1), Err(Error::End));
}

#[test]
fn syntax_errors_in_a_class() {
    assert_eq!(
        Parser::new("Hello ()", "test").parse_class(),
        Err(error_at("Expected [Equal], found NewTerm", 1, 7))
    );
    assert_eq!(
        Parser::new("Hello = Object Object ()", "test").parse_class(),
        Err(error_at("Expected [NewTerm], found Identifier", 1, 16))
    );
    assert_eq!(
        Parser::new("Hello = ( | a 1 | )", "test").parse_class(),
        Err(error_at("Expected [Or], found Integer", 1, 15))
    );
    assert_eq!(
        Parser::new("Hello = ( run = 1 )", "test").parse_class(),
        Err(error_at("Expected [NewTerm], found Integer", 1, 17))
    );
    assert_eq!(
        Parser::new("Hello = ( run: = ( ) )", "test").parse_class(),
        Err(error_at("Expected [Identifier], found Equal", 1, 16))
    );
    assert_eq!(
        Parser::new("Hello = ( 1 )", "test").parse_class(),
        Err(error_at("Expected [EndTerm], found Integer", 1, 11))
    );
    assert_eq!(
        Parser::new("Hello = ( run = ( 1 + ) )", "test").parse_class(),
        Err(error_at(
            "Expected [Identifier, String, Integer, Double, Pound, Minus, NewBlock, NewTerm], \
             found EndTerm",
            1,
            23
        ))
    );
    assert_eq!(
        Parser::new("1 = ()", "test").parse_class(),
        Err(error_at("Expected [Identifier], found Integer", 1, 1))
    );
}

#[test]
fn syntax_errors_in_a_method() {
    assert_eq!(
        Parser::new("12 = primitive", "test").parse_method(),
        Err(error_at(
            "Expected [Identifier, Keyword, OperatorSequence, And, At, Comma, Divide, Equal, \
             Less, Minus, Modulus, More, Not, Or, Percent, Plus, Star], found Integer",
            1,
            1
        ))
    );
    assert_eq!(
        Parser::new("+ 1 = primitive", "test").parse_method(),
        Err(error_at("Expected [Identifier], found Integer", 1, 3))
    );
    assert_eq!(
        Parser::new("a: b c = primitive", "test").parse_method(),
        Err(error_at("Expected [Equal], found Identifier", 1, 6))
    );
    assert_eq!(Parser::new("a: b", "test").parse_method(), Err(Error::End));
}

#[test]
fn character_that_starts_no_token_stops_the_parser() {
    assert_eq!(expression("a $"), Err(error_at("Unexpected character $", 1, 3)));
    assert_eq!(expression("$"), Err(error_at("Unexpected character $", 1, 1)));
    assert_eq!(expression("a foo: 1 + {"), Err(error_at("Unexpected character {", 1, 12)));
    assert_eq!(
        Parser::new("Hello = (\n | a ? | )", "test").parse_class(),
        Err(error_at("Unexpected character ?", 2, 6))
    );
    assert_eq!(
        Parser::new("a. b !", "test").parse_block_body(),
        Err(error_at("Unexpected character !", 1, 6))
    );
    assert_eq!(
        Parser::new("!", "test").peek(1),
        Err(error_at("Unexpected character !", 1, 1))
    );
    assert_eq!(
        Parser::new("!", "test").accept(Symbol::Identifier),
        Err(error_at("Unexpected character !", 1, 1))
    );
}

#[test]
fn what_follows_the_class_is_not_read() {
    let mut parser = Parser::new("Hello = () $ more", "test");
    let class = parser.parse_class().unwrap();
    assert_eq!(class.name, "Hello");
}

#[test]
fn binary_operators() {
    let operators = [
        (Symbol::And, "&"),
        (Symbol::At, "@"),
        (Symbol::Comma, ","),
        (Symbol::Divide, "/"),
        (Symbol::Equal, "="),
        (Symbol::Less, "<"),
        (Symbol::Minus, "-"),
        (Symbol::Modulus, "\\"),
        (Symbol::More, ">"),
        (Symbol::Not, "~"),
        (Symbol::Or, "|"),
        (Symbol::Percent, "%"),
        (Symbol::Plus, "+"),
        (Symbol::Star, "*"),
    ];
    for (symbol, text) in operators {
        assert!(is_binary_operator(&symbol));
        assert_eq!(binary_symbol_to_string(&symbol), text);
        assert_eq!(
            expression(&format!("a {} b", text)),
            Ok(binary(variable("a"), text, variable("b")))
        );
    }
    for symbol in [
        Symbol::OperatorSequence,
        Symbol::Identifier,
        Symbol::Assign,
        Symbol::Colon,
        Symbol::Period,
        Symbol::Separator,
        Symbol::Pound,
    ] {
        assert!(!is_binary_operator(&symbol));
    }
}

#[test]
fn keyword_selector_has_one_colon_for_each_parameter() {
    for source in ["a b: 1", "a b: 1 c: 2", "a b: 1 c: 2 d: [ :x | x e: 3 f: 4 ]"] {
        match expression(source).unwrap() {
            ast::Expression::KeywordMessage { message, parameters, .. } => {
                assert_eq!(message.split(':').count() - 1, parameters.len());
                let fragments: Vec<&str> = message.split(':').collect();
                assert_eq!(fragments.last(), Some(&""));
                for fragment in &fragments[..fragments.len() - 1] {
                    assert!(!fragment.is_empty());
                    assert!(fragment.chars().all(|c| c.is_ascii_alphanumeric() || c == '_'));
                }
            }
            other => panic!("no keyword message: {:?}", other),
        }
    }
}

#[test]
fn copies_of_expressions_are_equal_to_them() {
    let source = "a := [ :x | | t | t := x at: 1 put: -2.5. ^ #sym , 'text' ] value: nil";
    let expression = expression(source).unwrap();
    assert_eq!(expression.clone(), expression);
}

fn written(expression: &ast::Expression) -> String {
    match expression {
        ast::Expression::Assignment { variables, value } => {
            let mut text = String::new();
            for variable in variables {
                text.push_str(variable);
                text.push_str(" := ");
            }
            text + &bracketed(value)
        }
        ast::Expression::BinaryMessage { message, left, right } => {
            format!("{} {} {}", bracketed(left), message, bracketed(right))
        }
        ast::Expression::Block { parameters, locals, body } => {
            let mut text = String::from("[");
            for parameter in parameters {
                text.push_str(" :");
                text.push_str(parameter);
            }
            if !parameters.is_empty() {
                text.push_str(" |");
            }
            if !locals.is_empty() {
                text.push_str(" | ");
                text.push_str(&locals.join(" "));
                text.push_str(" |");
            }
            for statement in body {
                text.push(' ');
                text.push_str(&written(statement));
                text.push('.');
            }
            text + " ]"
        }
        ast::Expression::KeywordMessage { message, receiver, parameters } => {
            let mut text = bracketed(receiver);
            let keywords: Vec<&str> = message.split(':').collect();
            for (keyword, parameter) in keywords.iter().zip(parameters) {
                text.push_str(&format!(" {}: {}", keyword, bracketed(parameter)));
            }
            text
        }
        ast::Expression::LiteralBoolean(value) => format!("{}", value),
        ast::Expression::LiteralDouble(value) => {
            format!("{}{}", if value.negative { "-" } else { "" }, value.lexeme)
        }
        ast::Expression::LiteralInteger(value) => format!("{}", value),
        ast::Expression::LiteralNil => "nil".to_string(),
        ast::Expression::LiteralString(value) => format!("'{}'", value),
        ast::Expression::LiteralSymbol(value) => format!("#'{}'", value),
        ast::Expression::Return(value) => format!("^ {}", written(value)),
        ast::Expression::UnaryMessage { message, receiver } => {
            format!("{} {}", bracketed(receiver), message)
        }
        ast::Expression::Variable(name) => name.clone(),
    }
}

fn bracketed(expression: &ast::Expression) -> String {
    match expression {
        ast::Expression::Assignment { .. }
        | ast::Expression::BinaryMessage { .. }
        | ast::Expression::KeywordMessage { .. }
        | ast::Expression::UnaryMessage { .. } => format!("({})", written(expression)),
        _ => written(expression),
    }
}

#[test]
fn written_again_and_read_again_gives_the_same_tree() {
    let sources = [
        "a",
        "nil",
        "-12",
        "-3.25",
        "'text with \"quotes\"'",
        "#run:with:",
        "#+",
        "a := b := c foo",
        "a := (b := 1)",
        "1 - 2 - 3",
        "a + b foo",
        "a foo bar + b baz * 3",
        "1 with: a length and: 1 + 2",
        "a at: (b at: c) put: d",
        "[ :arg | arg print. ' ' print ]",
        "[ :a :b | | t u | t := a + b. ^ t max: u ]",
        "[]",
        "[ [ :x | ^ x ] value: [ nil ] ]",
        "x := [ :each | each isNil ifTrue: [ ^ 0 ] ifFalse: [ each size ] ] value: #a foo",
        "(((a)))",
        "a <= b , c",
    ];
    for source in sources {
        let first = expression(source).unwrap();
        let text = written(&first);
        let second = expression(&text);
        assert_eq!(second.as_ref(), Ok(&first), "{} was written as {}", source, text);
        assert_eq!(written(&second.unwrap()), text);
    }
}

fn is_name(text: &str) -> bool {
    !text.is_empty() && text.chars().all(|c| c.is_ascii_alphanumeric() || c == '_')
}

fn is_keyword_selector(text: &str, arity: usize) -> bool {
    let fragments: Vec<&str> = text.split(':').collect();
    fragments.len() == arity + 1
        && fragments[arity].is_empty()
        && fragments[..arity].iter().all(|fragment| is_name(fragment))
}

fn fits(expression: &ast::Expression) -> bool {
    match expression {
        ast::Expression::Assignment { variables, value } => {
            !variables.is_empty() && variables.iter().all(|name| is_name(name)) && fits(value)
        }
        ast::Expression::BinaryMessage { message, left, right } => {
            !message.is_empty() && fits(left) && fits(right)
        }
        ast::Expression::Block { parameters, locals, body } => {
            parameters.iter().all(|name| is_name(name))
                && locals.iter().all(|name| is_name(name))
                && body.iter().all(statement_fits)
        }
        ast::Expression::KeywordMessage { message, receiver, parameters } => {
            !parameters.is_empty()
                && is_keyword_selector(message, parameters.len())
                && fits(receiver)
                && parameters.iter().all(fits)
        }
        ast::Expression::Return(_) => false,
        ast::Expression::UnaryMessage { message, receiver } => is_name(message) && fits(receiver),
        ast::Expression::Variable(name) => is_name(name),
        _ => true,
    }
}

fn statement_fits(statement: &ast::Expression) -> bool {
    match statement {
        ast::Expression::Return(value) => fits(value),
        other => fits(other),
    }
}

#[test]
fn trees_have_names_selectors_and_returns_in_their_places() {
    let source = "
        Shapes = Object (
            | count_1 list |
            add: shape at: index = (
                | old |
                old := list at: index put: shape.
                old isNil ifTrue: [ count_1 := count_1 + 1. ^ shape ].
                ^ old
            )
            , other = ( ^ [ :a :b | a , b ] value: self value: other )
            size = ( ^ count_1 )
            ----
            | made |
            new = primitive
            new: n = ( made := made + 1. ^ self new resize: n; yourself )
        )";
    let class = Parser::new(source, "test").parse_class();
    assert_eq!(class, Err(error_at("Unexpected character ;", 15, 62)));
    let class = Parser::new(&source.replace(";", ""), "test").parse_class().unwrap();
    assert!(is_name(&class.name) && is_name(&class.superclass));
    let mut seen = 0;
    for methods in [&class.instance_methods, &class.class_methods] {
        for index in 0..methods.len() {
            let selector = methods.selector_at(index);
            assert!(!selector.is_empty());
            match methods.method_at(index) {
                ast::Method::Primitive { name, parameters } => {
                    assert_eq!(name, selector);
                    assert!(parameters.iter().all(|name| is_name(name)));
                }
                ast::Method::Native { name, parameters, locals, body } => {
                    assert_eq!(name, selector);
                    assert!(parameters.iter().all(|name| is_name(name)));
                    assert!(locals.iter().all(|name| is_name(name)));
                    assert!(body.iter().all(statement_fits));
                    if name.contains(':') {
                        assert!(is_keyword_selector(name, parameters.len()));
                    }
                }
            }
            seen += 1;
        }
    }
    assert_eq!(seen, 5);
    assert!(!fits(&ast::Expression::Return(Box::new(ast::Expression::LiteralNil))));
    assert!(statement_fits(&ast::Expression::Return(Box::new(ast::Expression::LiteralNil))));
}

#[test]
fn class_read_in_pieces() {
    let source = "Hello = Test (\n  | a |\n  run = ( ^ 'Hello, World' println )\n)\n";
    let whole = Parser::new(source, "test").parse_class().unwrap();
    let lines: Vec<String> = source.split_inclusive('\n').map(|line| line.to_string()).collect();
    assert_eq!(lines.len(), 4);
    assert_eq!(Parser::from_chunks(&lines, "test").parse_class(), Ok(whole.clone()));
    let pieces: Vec<String> = source.chars().map(|c| c.to_string()).collect();
    assert_eq!(Parser::from_chunks(&pieces, "test").parse_class(), Ok(whole));
    assert_eq!(Parser::from_chunks(&Vec::new(), "test").parse_class(), Err(Error::End));
}
