use mini_ts::ast::{BinaryOp, Expr, Positioned, Program};
use mini_ts::decimal::Decimal;
use mini_ts::lexer::{Lexer, SpannedToken, Token};
use mini_ts::parser::{Parser, SyntaxError};

fn parse_result(input: &str) -> Result<Program, SyntaxError> {
    let mut lexer = Lexer::new(input);
    let tokens = lexer.collect_tokens().unwrap();
    let mut parser = Parser::new(tokens);
    parser.parse_program()
}

fn parse_program(input: &str) -> Program {
    parse_result(input).unwrap()
}

fn syntax_error(input: &str) -> SyntaxError {
    parse_result(input).unwrap_err()
}

fn num(value: f64) -> Expr {
    Expr::Number(Decimal::parse(&value.to_string()).unwrap())
}

fn ident(name: &str) -> Expr {
    Expr::Identifier(name.to_string())
}

fn bin(left: Expr, op: BinaryOp, right: Expr) -> Expr {
    Expr::Binary { left: Box::new(left), op, right: Box::new(right) }
}

fn spanned(token: Token, line: usize, column: usize) -> SpannedToken {
    SpannedToken { token, line, column }
}

fn end_of_input() -> SpannedToken {
    spanned(Token::EOF, 0, 0)
}

fn assert_binary_expr(
    expr: &Expr,
    expected_left: &Expr,
    expected_op: &BinaryOp,
    expected_right: &Expr,
) {
    match expr {
        Expr::Binary { left, op, right } => {
            assert_eq!(**left, *expected_left);
            assert_eq!(*op, *expected_op);
            assert_eq!(**right, *expected_right);
        }
        _ => panic!("Expected Binary expression, got {:?}", expr),
    }
}

#[test]
fn test_parse_simple_let_number() {
    let program = parse_program("let x: number = 42;");

    assert_eq!(program.statements.len(), 1);
    let stmt = &program.statements[0];

    assert_eq!(stmt.name.value, "x");
    assert_eq!(stmt.declared_type.value, "number");

    match &stmt.expression.value {
        Expr::Number(n) => assert_eq!(*n, Decimal::parse(&42.0.to_string()).unwrap()),
        _ => panic!("Expected Number expression, got {:?}", stmt.expression),
    }
}

#[test]
fn test_parse_simple_let_string() {
    let program = parse_program("let greeting: string = \"Hello, World!\";");

    assert_eq!(program.statements.len(), 1);
    let stmt = &program.statements[0];

    assert_eq!(stmt.name.value, "greeting");
    assert_eq!(stmt.declared_type.value, "string");

    match &stmt.expression.value {
        Expr::String(s) => assert_eq!(s, "Hello, World!"),
        _ => panic!("Expected String expression, got {:?}", stmt.expression),
    }
}

#[test]
fn test_parse_simple_let_identifier() {
    let program = parse_program("let y: number = x;");

    assert_eq!(program.statements.len(), 1);
    let stmt = &program.statements[0];

    assert_eq!(stmt.name.value, "y");
    assert_eq!(stmt.declared_type.value, "number");

    match &stmt.expression.value {
        Expr::Identifier(name) => assert_eq!(name, "x"),
        _ => panic!("Expected Identifier expression, got {:?}", stmt.expression),
    }
}

#[test]
fn test_parse_let_with_binary_expr() {
    let program = parse_program("let result: number = 10 + 20;");

    assert_eq!(program.statements.len(), 1);
    let stmt = &program.statements[0];

    assert_eq!(stmt.name.value, "result");
    assert_eq!(stmt.declared_type.value, "number");

    assert_binary_expr(&stmt.expression.value, &num(10.0), &BinaryOp::Add, &num(20.0));
}

#[test]
fn test_parse_complex_binary_expr() {
    let program = parse_program("let complex: number = 5 + 10 * 15;");

    assert_eq!(program.statements.len(), 1);
    let stmt = &program.statements[0];

    assert_eq!(stmt.name.value, "complex");
    assert_eq!(stmt.declared_type.value, "number");

    if let Expr::Binary { left, op, right } = &stmt.expression.value {
        assert_eq!(**left, num(5.0));
        assert_eq!(*op, BinaryOp::Add);

        assert_binary_expr(right, &num(10.0), &BinaryOp::Mul, &num(15.0));
    } else {
        panic!("Expected Binary expression");
    }
}

#[test]
fn test_parse_parenthesized_expr() {
    let program = parse_program("let paren: number = (10 + 20) * 30;");

    assert_eq!(program.statements.len(), 1);
    let stmt = &program.statements[0];

    if let Expr::Binary { left, op, right } = &stmt.expression.value {
        assert_eq!(*op, BinaryOp::Mul);
        assert_eq!(**right, num(30.0));

        assert_binary_expr(left, &num(10.0), &BinaryOp::Add, &num(20.0));
    } else {
        panic!("Expected Binary expression");
    }
}

#[test]
fn test_parse_deep_parenthesized_expr() {
    let program = parse_program("let result: number = ((5 * (10 + 2)) + ((8 - 3) * 6));");

    assert_eq!(program.statements.len(), 1);
    let stmt = &program.statements[0];

    assert_eq!(stmt.name.value, "result");
    assert_eq!(stmt.declared_type.value, "number");

    if let Expr::Binary { left, op: op_outer, right } = &stmt.expression.value {
        assert_eq!(*op_outer, BinaryOp::Add);

        if let Expr::Binary { left: left_inner, op: op_left, right: right_inner } = &**left {
            assert_eq!(*op_left, BinaryOp::Mul);
            assert_eq!(**left_inner, num(5.0));

            assert_binary_expr(right_inner, &num(10.0), &BinaryOp::Add, &num(2.0));
        } else {
            panic!("Expected Binary expression for left branch");
        }

        if let Expr::Binary { left: left_inner, op: op_right, right: right_inner } = &**right {
            assert_eq!(*op_right, BinaryOp::Mul);
            assert_eq!(**right_inner, num(6.0));

            assert_binary_expr(left_inner, &num(8.0), &BinaryOp::Sub, &num(3.0));
        } else {
            panic!("Expected Binary expression for right branch");
        }
    } else {
        panic!("Expected Binary expression at top level");
    }
}

#[test]
fn parser_tests_test_multiple_statements() {
    let program = parse_program("let x: number = 10; let y: number = 20;");

    assert_eq!(program.statements.len(), 2);

    let stmt1 = &program.statements[0];
    assert_eq!(stmt1.name.value, "x");
    assert_eq!(stmt1.declared_type.value, "number");
    match &stmt1.expression.value {
        Expr::Number(n) => assert_eq!(*n, Decimal::parse(&10.0.to_string()).unwrap()),
        _ => panic!("Expected Number expression"),
    }

    let stmt2 = &program.statements[1];
    assert_eq!(stmt2.name.value, "y");
    assert_eq!(stmt2.declared_type.value, "number");
    match &stmt2.expression.value {
        Expr::Number(n) => assert_eq!(*n, Decimal::parse(&20.0.to_string()).unwrap()),
        _ => panic!("Expected Number expression"),
    }
}

#[test]
fn test_complex_program() {
    let program = parse_program(
        "
            let x: number = 5;
            let y: number = 10;
            let result: number = (x + y) * (y - x);
        ",
    );

    assert_eq!(program.statements.len(), 3);

    let stmt3 = &program.statements[2];
    assert_eq!(stmt3.name.value, "result");

    if let Expr::Binary { left, op, right } = &stmt3.expression.value {
        assert_eq!(*op, BinaryOp::Mul);

        assert_binary_expr(left, &ident("x"), &BinaryOp::Add, &ident("y"));

        assert_binary_expr(right, &ident("y"), &BinaryOp::Sub, &ident("x"));
    } else {
        panic!("Expected Binary expression");
    }
}

#[test]
fn test_error_missing_type() {
    let error = syntax_error("let x = 10;");
    assert_eq!(error.message(), "Expected: Colon");
    assert_eq!(
        error,
        SyntaxError::UnexpectedToken { expected: Token::Colon, found: spanned(Token::Equal, 1, 7) }
    );
}

#[test]
fn test_error_missing_semicolon() {
    let error = syntax_error("let x: number = 10");
    assert_eq!(error.message(), "Expected: Semicolon");
    assert_eq!(
        error,
        SyntaxError::UnexpectedToken { expected: Token::Semicolon, found: end_of_input() }
    );
}

#[test]
fn an_empty_token_sequence_is_the_empty_program() {
    assert_eq!(parse_program(""), Program { statements: vec![] });
    assert_eq!(Parser::new(vec![]).parse_program(), Ok(Program { statements: vec![] }));
}

#[test]
fn subtraction_and_division_group_to_the_left() {
    let program = parse_program("let a: number = 20 - 10 - 5; let b: number = 8 / 4 / 2;");
    assert_eq!(
        program.statements[0].expression.value,
        bin(bin(num(20.0), BinaryOp::Sub, num(10.0)), BinaryOp::Sub, num(5.0))
    );
    assert_eq!(
        program.statements[1].expression.value,
        bin(bin(num(8.0), BinaryOp::Div, num(4.0)), BinaryOp::Div, num(2.0))
    );
}

#[test]
fn products_bind_tighter_than_sums() {
    let program = parse_program("let a: number = 1 * 2 + 3 / 4 - 5;");
    assert_eq!(
        program.statements[0].expression.value,
        bin(
            bin(
                bin(num(1.0), BinaryOp::Mul, num(2.0)),
                BinaryOp::Add,
                bin(num(3.0), BinaryOp::Div, num(4.0))
            ),
            BinaryOp::Sub,
            num(5.0)
        )
    );
}

#[test]
fn parentheses_leave_no_trace_in_the_tree() {
    let plain = parse_program("let a: number = 1 + 2;");
    let wrapped = parse_program("let a: number = (((1)) + (2));");
    assert_eq!(plain.statements[0].expression.value, wrapped.statements[0].expression.value);
}

#[test]
fn statements_record_the_positions_of_their_parts() {
    let program = parse_program("let x: number = 1;\n  let  yy : string =\n (a + \"b\");");
    assert_eq!(
        program.statements[0].name,
        Positioned { value: "x".to_string(), line: 1, column: 5 }
    );
    assert_eq!(
        program.statements[0].declared_type,
        Positioned { value: "number".to_string(), line: 1, column: 8 }
    );
    assert_eq!(
        program.statements[0].expression,
        Positioned { value: num(1.0), line: 1, column: 17 }
    );
    assert_eq!(
        program.statements[1].name,
        Positioned { value: "yy".to_string(), line: 2, column: 8 }
    );
    assert_eq!(
        program.statements[1].declared_type,
        Positioned { value: "string".to_string(), line: 2, column: 13 }
    );
    assert_eq!(
        program.statements[1].expression,
        Positioned {
            value: bin(ident("a"), BinaryOp::Add, Expr::String("b".to_string())),
            line: 3,
            column: 2
        }
    );
}

#[test]
fn a_statement_must_start_with_let() {
    assert_eq!(
        syntax_error("x: number = 1;"),
        SyntaxError::UnexpectedToken {
            expected: Token::Let,
            found: spanned(Token::Identifier("x".to_string()), 1, 1)
        }
    );
    assert_eq!(
        syntax_error("let x: number = 1; 5"),
        SyntaxError::UnexpectedToken {
            expected: Token::Let,
            found: spanned(Token::Number(Decimal::parse("5").unwrap()), 1, 20)
        }
    );
    assert_eq!(syntax_error(";").message(), "Expected: Let");
}

#[test]
fn the_name_must_be_an_identifier() {
    let error = syntax_error("let 5: number = 1;");
    assert_eq!(
        error,
        SyntaxError::ExpectedIdentifier {
            found: spanned(Token::Number(Decimal::parse("5").unwrap()), 1, 5)
        }
    );
    assert_eq!(error.message(), "Expected identifier name, found Number(5)");
    assert_eq!(
        syntax_error("let number: number = 1;"),
        SyntaxError::ExpectedIdentifier { found: spanned(Token::Type("number".to_string()), 1, 5) }
    );
    assert_eq!(syntax_error("let"), SyntaxError::ExpectedIdentifier { found: end_of_input() });
    assert_eq!(syntax_error("let").message(), "Expected identifier name, found EOF");
}

#[test]
fn the_annotation_must_be_a_type() {
    let error = syntax_error("let x: boolean = 1;");
    assert_eq!(
        error,
        SyntaxError::ExpectedType { found: spanned(Token::Identifier("boolean".to_string()), 1, 8) }
    );
    assert_eq!(error.message(), "Expected type annotation, found Identifier(\"boolean\")");
    assert_eq!(syntax_error("let x:"), SyntaxError::ExpectedType { found: end_of_input() });
}

#[test]
fn the_equal_sign_is_required() {
    assert_eq!(
        syntax_error("let x: number 1;"),
        SyntaxError::UnexpectedToken {
            expected: Token::Equal,
            found: spanned(Token::Number(Decimal::parse("1").unwrap()), 1, 15)
        }
    );
    assert_eq!(syntax_error("let x: number").message(), "Expected: Equal");
}

#[test]
fn an_expression_must_start_with_an_operand() {
    let error = syntax_error("let x: number = ;");
    assert_eq!(error, SyntaxError::ExpectedExpression { found: spanned(Token::Semicolon, 1, 17) });
    assert_eq!(error.message(), "Expected expression, found unexpected token: Semicolon");
    assert_eq!(
        syntax_error("let x: number = 1 + * 2;"),
        SyntaxError::ExpectedExpression { found: spanned(Token::Star, 1, 21) }
    );
    assert_eq!(
        syntax_error("let x: number = -1;"),
        SyntaxError::ExpectedExpression { found: spanned(Token::Minus, 1, 17) }
    );
    assert_eq!(
        syntax_error("let x: number = 1 +"),
        SyntaxError::ExpectedExpression { found: end_of_input() }
    );
    assert_eq!(
        syntax_error("let x: string = \"a\" + let"),
        SyntaxError::ExpectedExpression { found: spanned(Token::Let, 1, 23) }
    );
}

#[test]
fn an_open_parenthesis_must_be_closed() {
    assert_eq!(
        syntax_error("let x: number = (1 + 2;"),
        SyntaxError::UnexpectedToken {
            expected: Token::RParen,
            found: spanned(Token::Semicolon, 1, 23)
        }
    );
    assert_eq!(syntax_error("let x: number = (1").message(), "Expected: RParen");
    assert_eq!(
        syntax_error("let x: number = ();"),
        SyntaxError::ExpectedExpression { found: spanned(Token::RParen, 1, 18) }
    );
}

#[test]
fn two_operands_in_a_row_end_the_expression() {
    assert_eq!(
        syntax_error("let x: number = 1 2;"),
        SyntaxError::UnexpectedToken {
            expected: Token::Semicolon,
            found: spanned(Token::Number(Decimal::parse("2").unwrap()), 1, 19)
        }
    );
    assert_eq!(
        syntax_error("let x: number = (1) );"),
        SyntaxError::UnexpectedToken {
            expected: Token::Semicolon,
            found: spanned(Token::RParen, 1, 21)
        }
    );
}

#[test]
fn the_first_error_is_the_one_reported() {
    assert_eq!(
        syntax_error("let a: number = 1; let b = 2; let 3"),
        SyntaxError::UnexpectedToken { expected: Token::Colon, found: spanned(Token::Equal, 1, 26) }
    );
}

#[test]
fn a_failed_parse_leaves_the_parser_as_it_was() {
    let tokens = Lexer::new("let a: number = 1; let b").collect_tokens().unwrap();
    let mut parser = Parser::new(tokens);
    let first = parser.parse_program();
    let second = parser.parse_program();
    assert_eq!(
        first,
        Err(SyntaxError::UnexpectedToken { expected: Token::Colon, found: end_of_input() })
    );
    assert_eq!(first, second);
}

#[test]
fn a_finished_parser_has_nothing_more_to_read() {
    let tokens = Lexer::new("let a: number = 1;").collect_tokens().unwrap();
    let mut parser = Parser::new(tokens);
    assert_eq!(parser.parse_program().unwrap().statements.len(), 1);
    assert_eq!(parser.parse_program(), Ok(Program { statements: vec![] }));
}

#[test]
fn an_eof_token_ends_the_program() {
    let mut tokens = Lexer::new("let a: number = 1;").collect_tokens().unwrap();
    tokens.push(spanned(Token::EOF, 1, 19));
    tokens.push(spanned(Token::Semicolon, 1, 20));
    let mut parser = Parser::new(tokens);
    assert_eq!(parser.parse_program().unwrap().statements.len(), 1);
}

#[test]
fn syntax_errors_copy_by_value() {
    let error = syntax_error("let x: number = (1 + \"two\";");
    assert_eq!(error.clone(), error);
}

#[test]
fn an_expression_can_be_read_alone() {
    let tokens = Lexer::new("1 + 2 * x ; y").collect_tokens().unwrap();
    let mut parser = Parser::new(tokens);
    assert_eq!(
        parser.parse_expression(),
        Ok(bin(num(1.0), BinaryOp::Add, bin(num(2.0), BinaryOp::Mul, ident("x"))))
    );
    let stopped = parser.parse_expression();
    assert_eq!(
        stopped,
        Err(SyntaxError::ExpectedExpression { found: spanned(Token::Semicolon, 1, 11) })
    );
    assert_eq!(parser.parse_expression(), stopped);
}

#[test]
fn a_failed_expression_leaves_the_parser_as_it_was() {
    let tokens = Lexer::new("x (1 + )").collect_tokens().unwrap();
    let mut parser = Parser::new(tokens);
    assert_eq!(parser.parse_expression(), Ok(ident("x")));
    let first = parser.parse_expression();
    assert_eq!(first, Err(SyntaxError::ExpectedExpression { found: spanned(Token::RParen, 1, 8) }));
    assert_eq!(parser.parse_expression(), first);
}
