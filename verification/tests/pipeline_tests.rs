use mini_ts::ast::{BinaryOp, Expr, Program, Type};
use mini_ts::decimal::Decimal;
use mini_ts::js_emitter::JsEmitter;
use mini_ts::lexer::{LexicalError, SpannedToken, Token};
use mini_ts::parser::{Parser, SyntaxError};
use mini_ts::pipeline::{check, compile, emit, parse, tokenize, CompileError};
use mini_ts::type_checker::TypeError;

#[test]
fn a_program_runs_through_all_four_stages() {
    let source = "let x: number = 10 + 20;\nlet str: string = \"Hello\" + \"World\";\n";
    let tokens = tokenize(source).unwrap();
    assert_eq!(tokens.len(), 18);
    let program = parse(tokens).unwrap();
    assert_eq!(program.statements.len(), 2);
    assert_eq!(check(&program), Ok(()));
    assert_eq!(emit(&program), "let x = (10 + 20);\nlet str = (\"Hello\" + \"World\");\n");
    assert_eq!(
        compile(source),
        Ok("let x = (10 + 20);\nlet str = (\"Hello\" + \"World\");\n".to_string())
    );
}

#[test]
fn precedence_shows_in_the_tree_and_in_the_output() {
    let program = parse(tokenize("let v: number = 5 + 10 * 15;").unwrap()).unwrap();
    match &program.statements[0].expression.value {
        Expr::Binary { left, op, right } => {
            assert_eq!(JsEmitter::generate_expr(left), "5");
            assert_eq!(*op, BinaryOp::Add);
            assert_eq!(JsEmitter::generate_expr(right), "(10 * 15)");
        }
        other => panic!("Expected Binary expression, got {:?}", other),
    }
    assert_eq!(
        compile("let v: number = 5 + 10 * 15;"),
        Ok("let v = (5 + (10 * 15));\n".to_string())
    );
}

#[test]
fn the_identifier_after_let_stands_in_column_five() {
    let tokens = tokenize("let x: number = 10;").unwrap();
    assert_eq!(tokens[1].token, Token::Identifier("x".to_string()));
    assert_eq!((tokens[1].line, tokens[1].column), (1, 5));
}

#[test]
fn the_empty_source_compiles_to_the_empty_output() {
    assert_eq!(compile(""), Ok(String::new()));
    assert_eq!(compile("  \n\t"), Ok(String::new()));
}

#[test]
fn a_lexical_failure_stops_the_compilation() {
    let error = compile("let x: number = 1 $ 2;").unwrap_err();
    assert_eq!(
        error,
        CompileError::Lexical(LexicalError::UnknownCharacter {
            character: '$',
            line: 1,
            column: 19
        })
    );
    assert_eq!(error.message(), "Unknown character: $");
    assert_eq!(
        compile("let x: number = 1.2.3;").unwrap_err().message(),
        "Malformed number: 1.2.3"
    );
}

#[test]
fn a_lexical_failure_comes_before_a_syntax_error() {
    assert_eq!(
        compile("let = ?").unwrap_err(),
        CompileError::Lexical(LexicalError::UnknownCharacter { character: '?', line: 1, column: 7 })
    );
}

#[test]
fn a_syntax_error_stops_the_compilation() {
    let error = compile("let x = 10;").unwrap_err();
    match &error {
        CompileError::Syntax(SyntaxError::UnexpectedToken { expected, found }) => {
            assert_eq!(*expected, Token::Colon);
            assert_eq!(found.token, Token::Equal);
        }
        other => panic!("Expected a syntax error, got {:?}", other),
    }
    assert_eq!(error.message(), "Expected: Colon");
}

#[test]
fn a_syntax_error_comes_before_a_type_error() {
    let error = compile("let a: number = \"s\"; let b").unwrap_err();
    assert_eq!(error.message(), "Expected: Colon");
}

#[test]
fn a_type_error_stops_the_compilation() {
    assert_eq!(
        compile("let x: number = \"hello\";").unwrap_err(),
        CompileError::Type(TypeError::Mismatch {
            name: "x".to_string(),
            line: 1,
            column: 5,
            declared: Type::Number
        })
    );
    assert_eq!(
        compile("let s: string = \"a\" - \"b\";").unwrap_err().message(),
        "Type error: '-' can only be used for number operations, not with strings"
    );
    assert_eq!(
        compile("let s: string = \"a\" + \"b\";"),
        Ok("let s = (\"a\" + \"b\");\n".to_string())
    );
}

#[test]
fn emitted_expressions_read_back_as_the_same_tree() {
    let sources = [
        "let a: number = 1 + 2 * 3 - 4 / 5;",
        "let a: number = ((1 + 2) * (3 - 4)) / 5;",
        "let a: string = \"x y\" + name_1 + \"(\" + \")\";",
        "let a: number = 007.500 - 20 - 10 - (5);",
        "let a: number = lettuce * numbers / strings;",
        "let a: string = \"\";",
        "let a: number = 0.0;",
    ];
    for source in sources {
        let program = parse(tokenize(source).unwrap()).unwrap();
        let expression = &program.statements[0].expression.value;
        let text = JsEmitter::generate_expr(expression);
        let tokens = tokenize(&text).unwrap();
        let count = tokens.len();
        let mut parser = Parser::new(tokens);
        assert_eq!(parser.parse_expression().as_ref(), Ok(expression));
        assert_eq!(parser.parse_program(), Ok(Program { statements: vec![] }));
        assert!(count > 0);
        let again = tokenize(&text).unwrap();
        let reparsed = Parser::new(again).parse_expression().unwrap();
        assert_eq!(JsEmitter::generate_expr(&reparsed), text);
    }
}

#[test]
fn an_emitted_program_lexes_to_its_statements_without_annotations() {
    let source = "let x: number = 10 + 20;\nlet str: string = \"Hello\" + \"World\";\n";
    let output = compile(source).unwrap();
    let tokens: Vec<Token> = tokenize(&output).unwrap().into_iter().map(|t| t.token).collect();
    let ten = Token::Number(Decimal::parse("10").unwrap());
    let twenty = Token::Number(Decimal::parse("20").unwrap());
    assert_eq!(
        tokens,
        vec![
            Token::Let,
            Token::Identifier("x".to_string()),
            Token::Equal,
            Token::LParen,
            ten,
            Token::Plus,
            twenty,
            Token::RParen,
            Token::Semicolon,
            Token::Let,
            Token::Identifier("str".to_string()),
            Token::Equal,
            Token::LParen,
            Token::String("Hello".to_string()),
            Token::Plus,
            Token::String("World".to_string()),
            Token::RParen,
            Token::Semicolon,
        ]
    );
}

#[test]
fn an_emitted_program_is_not_source_text() {
    let output = compile("let x: number = 1;").unwrap();
    assert_eq!(output, "let x = 1;\n");
    assert_eq!(
        compile(&output),
        Err(CompileError::Syntax(SyntaxError::UnexpectedToken {
            expected: Token::Colon,
            found: SpannedToken { token: Token::Equal, line: 1, column: 7 }
        }))
    );
}
