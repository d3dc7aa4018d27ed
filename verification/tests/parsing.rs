//! Behavior of the parser on scanned token sequences.

use lox::{Expression, Literal, Lox, NumberValue, ParseError, Parser, Scanner, Token, TokenType};

fn parse_with_lox(source: &str) -> (Result<Expression, ParseError>, Lox) {
    let mut lox = Lox::new();
    let mut scanner = Scanner::new(source.to_string());
    let tokens = scanner.scan_tokens(&mut lox);
    let mut parser = Parser::new(tokens);
    let result = parser.parse_expression(&mut lox);
    (result, lox)
}

fn parse_ok_of(source: &str) -> Expression {
    let (result, lox) = parse_with_lox(source);
    assert!(!lox.had_error);
    result.expect("expected a successful parse")
}

fn num_lit(int_digits: Vec<u8>, frac_digits: Vec<u8>) -> Expression {
    Expression::Literal(Literal::Number(NumberValue::from_parts(int_digits, frac_digits)))
}

fn op(token_type: TokenType, lexeme: &str, line: u32) -> Token {
    Token::new(token_type, lexeme.to_string(), Literal::Nil, line)
}

#[test]
fn multiplication_binds_tighter_than_addition() {
    let expr = parse_ok_of("1 + 2 * 3");
    let expected = Expression::Binary {
        left: Box::new(num_lit(vec![1], vec![])),
        operator: op(TokenType::PLUS, "+", 1),
        right: Box::new(Expression::Binary {
            left: Box::new(num_lit(vec![2], vec![])),
            operator: op(TokenType::STAR, "*", 1),
            right: Box::new(num_lit(vec![3], vec![])),
        }),
    };
    assert_eq!(expr, expected);
}

#[test]
fn unterminated_group_reports_missing_paren() {
    let (result, lox) = parse_with_lox("(1 + 2");
    let err = result.expect_err("expected a parse error");
    assert_eq!(err.message, "Expect ')' after expression.");
    assert_eq!(err.token.token_type, TokenType::EOF);
    assert_eq!(err.token.line, 1);
    assert!(lox.had_error);
    assert_eq!(lox.diagnostics.len(), 1);
    assert_eq!(
        lox.diagnostics[0].render(),
        "[line 1] Error at end: Expect ')' after expression."
    );
}

#[test]
fn missing_paren_reports_line_of_final_token() {
    let (result, lox) = parse_with_lox("(1 +\n2");
    let err = result.expect_err("expected a parse error");
    assert_eq!(err.token.line, 2);
    assert_eq!(lox.diagnostics[0].line, 2);
}

#[test]
fn keyword_literals() {
    assert_eq!(
        parse_ok_of("true"),
        Expression::Literal(Literal::Bool(true))
    );
    assert_eq!(
        parse_ok_of("false"),
        Expression::Literal(Literal::Bool(false))
    );
    assert_eq!(parse_ok_of("nil"), Expression::Literal(Literal::Nil));
}

#[test]
fn string_literal_expression() {
    assert_eq!(
        parse_ok_of("\"hi\""),
        Expression::Literal(Literal::Str("hi".to_string()))
    );
}

#[test]
fn grouping_wraps_inner_expression() {
    assert_eq!(
        parse_ok_of("(1)"),
        Expression::Grouping(Box::new(num_lit(vec![1], vec![])))
    );
}

#[test]
fn unary_operators_nest_right_associatively() {
    let expr = parse_ok_of("!!true");
    let expected = Expression::Unary {
        operator: op(TokenType::BANG, "!", 1),
        right: Box::new(Expression::Unary {
            operator: op(TokenType::BANG, "!", 1),
            right: Box::new(Expression::Literal(Literal::Bool(true))),
        }),
    };
    assert_eq!(expr, expected);

    let negated = parse_ok_of("-1");
    let expected_neg = Expression::Unary {
        operator: op(TokenType::MINUS, "-", 1),
        right: Box::new(num_lit(vec![1], vec![])),
    };
    assert_eq!(negated, expected_neg);
}

#[test]
fn subtraction_is_left_associative() {
    let expr = parse_ok_of("1 - 2 - 3");
    let expected = Expression::Binary {
        left: Box::new(Expression::Binary {
            left: Box::new(num_lit(vec![1], vec![])),
            operator: op(TokenType::MINUS, "-", 1),
            right: Box::new(num_lit(vec![2], vec![])),
        }),
        operator: op(TokenType::MINUS, "-", 1),
        right: Box::new(num_lit(vec![3], vec![])),
    };
    assert_eq!(expr, expected);
}

#[test]
fn comparison_binds_tighter_than_equality() {
    let expr = parse_ok_of("1 < 2 == true");
    let expected = Expression::Binary {
        left: Box::new(Expression::Binary {
            left: Box::new(num_lit(vec![1], vec![])),
            operator: op(TokenType::LESS, "<", 1),
            right: Box::new(num_lit(vec![2], vec![])),
        }),
        operator: op(TokenType::EQUAL_EQUAL, "==", 1),
        right: Box::new(Expression::Literal(Literal::Bool(true))),
    };
    assert_eq!(expr, expected);
}

#[test]
fn factor_chain_is_left_associative() {
    let expr = parse_ok_of("2 * 3 / 4");
    let expected = Expression::Binary {
        left: Box::new(Expression::Binary {
            left: Box::new(num_lit(vec![2], vec![])),
            operator: op(TokenType::STAR, "*", 1),
            right: Box::new(num_lit(vec![3], vec![])),
        }),
        operator: op(TokenType::SLASH, "/", 1),
        right: Box::new(num_lit(vec![4], vec![])),
    };
    assert_eq!(expr, expected);
}

#[test]
fn unary_inside_factor() {
    let expr = parse_ok_of("2 * -3");
    let expected = Expression::Binary {
        left: Box::new(num_lit(vec![2], vec![])),
        operator: op(TokenType::STAR, "*", 1),
        right: Box::new(Expression::Unary {
            operator: op(TokenType::MINUS, "-", 1),
            right: Box::new(num_lit(vec![3], vec![])),
        }),
    };
    assert_eq!(expr, expected);
}

#[test]
fn operator_without_operand_expects_expression() {
    let (result, lox) = parse_with_lox("+");
    let err = result.expect_err("expected a parse error");
    assert_eq!(err.message, "Expect expression.");
    assert_eq!(err.token.token_type, TokenType::PLUS);
    assert!(lox.had_error);
    assert_eq!(
        lox.diagnostics[0].render(),
        "[line 1] Error at '+': Expect expression."
    );
}

#[test]
fn empty_input_expects_expression() {
    let (result, lox) = parse_with_lox("");
    let err = result.expect_err("expected a parse error");
    assert_eq!(err.message, "Expect expression.");
    assert_eq!(err.token.token_type, TokenType::EOF);
    assert_eq!(
        lox.diagnostics[0].render(),
        "[line 1] Error at end: Expect expression."
    );
}

#[test]
fn dangling_binary_operand_expects_expression() {
    let (result, _) = parse_with_lox("1 +");
    let err = result.expect_err("expected a parse error");
    assert_eq!(err.message, "Expect expression.");
    assert_eq!(err.token.token_type, TokenType::EOF);
}

#[test]
fn parse_consumes_only_one_expression() {
    // the parser reads a prefix of the stream: the second expression is
    // left unconsumed
    let (result, lox) = parse_with_lox("1 2");
    assert!(result.is_ok());
    assert!(!lox.had_error);
}

#[test]
fn ast_variants_compare_structurally() {
    let name = || op(TokenType::IDENTIFIER, "x", 1);
    let one = || num_lit(vec![1], vec![]);
    let mk_call = || Expression::Call {
        callee: Box::new(Expression::Variable { name: name() }),
        paren: op(TokenType::RIGHT_PAREN, ")", 1),
        arguments: vec![
            one(),
            Expression::Get {
                object: Box::new(Expression::This {
                    keyword: op(TokenType::THIS, "this", 1),
                }),
                name: name(),
            },
        ],
    };
    let assign = Expression::Assign {
        name: name(),
        value: Box::new(Expression::SetProperty {
            object: Box::new(Expression::Super {
                keyword: op(TokenType::SUPER, "super", 1),
                method: name(),
            }),
            name: name(),
            value: Box::new(Expression::Logical {
                left: Box::new(one()),
                operator: op(TokenType::OR, "or", 1),
                right: Box::new(mk_call()),
            }),
        }),
    };
    assert_ne!(assign, mk_call());
    assert_eq!(mk_call(), mk_call());
}

#[test]
fn nested_grouping_with_operators() {
    let expr = parse_ok_of("(1 + 2) * 3");
    let expected = Expression::Binary {
        left: Box::new(Expression::Grouping(Box::new(Expression::Binary {
            left: Box::new(num_lit(vec![1], vec![])),
            operator: op(TokenType::PLUS, "+", 1),
            right: Box::new(num_lit(vec![2], vec![])),
        }))),
        operator: op(TokenType::STAR, "*", 1),
        right: Box::new(num_lit(vec![3], vec![])),
    };
    assert_eq!(expr, expected);
}
