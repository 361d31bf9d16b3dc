use mini_ts::ast::{BinaryOp, Expr, LetStatement, Positioned, Program};
use mini_ts::decimal::Decimal;
use mini_ts::js_emitter::JsEmitter;
use mini_ts::lexer::Lexer;
use mini_ts::parser::Parser;

fn emitted_program(input: &str) -> Program {
    let mut lexer = Lexer::new(input);
    let tokens = lexer.collect_tokens().unwrap();
    let mut parser = Parser::new(tokens);
    parser.parse_program().unwrap()
}

fn generate_js(input: &str) -> String {
    let program = emitted_program(input);
    let generator = JsEmitter::new();
    generator.generate(&program)
}

#[test]
fn js_emitter_tests_test_simple_number_assignment() {
    let js = generate_js("let x: number = 42;");
    assert_eq!(js, "let x = 42;\n");
}

#[test]
fn js_emitter_tests_test_simple_string_assignment() {
    let js = generate_js("let s: string = \"hello\";");
    assert_eq!(js, "let s = \"hello\";\n");
}

#[test]
fn js_emitter_tests_test_variable_reference() {
    let js = generate_js("let x: number = 42; let y: number = x;");
    assert_eq!(js, "let x = 42;\nlet y = x;\n");
}

#[test]
fn test_binary_expression_addition() {
    let js = generate_js("let sum: number = 10 + 20;");
    assert_eq!(js, "let sum = (10 + 20);\n");
}

#[test]
fn test_binary_expression_subtraction() {
    let js = generate_js("let diff: number = 20 - 10;");
    assert_eq!(js, "let diff = (20 - 10);\n");
}

#[test]
fn test_binary_expression_multiplication() {
    let js = generate_js("let product: number = 5 * 6;");
    assert_eq!(js, "let product = (5 * 6);\n");
}

#[test]
fn test_binary_expression_division() {
    let js = generate_js("let quotient: number = 20 / 4;");
    assert_eq!(js, "let quotient = (20 / 4);\n");
}

#[test]
fn js_emitter_tests_test_string_concatenation() {
    let js = generate_js("let greeting: string = \"Hello, \" + \"World!\";");
    assert_eq!(js, "let greeting = (\"Hello, \" + \"World!\");\n");
}

#[test]
fn js_emitter_tests_test_complex_expression() {
    let js = generate_js("let result: number = (10 + 20) * (30 - 5);");
    assert_eq!(js, "let result = ((10 + 20) * (30 - 5));\n");
}

#[test]
fn test_nested_expressions() {
    let js = generate_js("let complex: number = 5 + 10 * 15;");
    assert_eq!(js, "let complex = (5 + (10 * 15));\n");
}

#[test]
fn js_emitter_tests_test_multiple_statements() {
    let js = generate_js("let x: number = 10; let y: number = 20; let z: number = x + y;");
    assert_eq!(js, "let x = 10;\nlet y = 20;\nlet z = (x + y);\n");
}

#[test]
fn test_variable_references_in_expressions() {
    let js =
        generate_js("let a: number = 5; let b: number = 10; let result: number = (a + b) * (b - a);");
    assert_eq!(js, "let a = 5;\nlet b = 10;\nlet result = ((a + b) * (b - a));\n");
}

#[test]
fn test_string_variables_concatenation() {
    let js = generate_js(
        "let s1: string = \"Hello\"; let s2: string = \"World\"; let greeting: string = s1 + \", \" + s2 + \"!\";",
    );
    assert_eq!(
        js,
        "let s1 = \"Hello\";\nlet s2 = \"World\";\nlet greeting = (((s1 + \", \") + s2) + \"!\");\n"
    );
}

#[test]
fn the_empty_program_emits_nothing() {
    assert_eq!(generate_js(""), "");
}

#[test]
fn numbers_are_emitted_in_canonical_notation() {
    assert_eq!(
        generate_js("let a: number = 007 + 1.50 * 10.0 - 0.25;"),
        "let a = ((7 + (1.5 * 10)) - 0.25);\n"
    );
}

#[test]
fn left_grouping_shows_in_the_parentheses() {
    assert_eq!(generate_js("let a: number = 20 - 10 - 5;"), "let a = ((20 - 10) - 5);\n");
    assert_eq!(generate_js("let a: number = 20 - (10 - 5);"), "let a = (20 - (10 - 5));\n");
}

#[test]
fn the_emitter_does_not_check_types() {
    assert_eq!(generate_js("let x: number = \"a\" - nobody;"), "let x = (\"a\" - nobody);\n");
}

#[test]
fn strings_are_quoted_without_escaping() {
    let statement = LetStatement {
        name: Positioned::new("s".to_string(), 1, 5),
        declared_type: Positioned::new("string".to_string(), 1, 8),
        expression: Positioned::new(Expr::String("a\"b\\\nc".to_string()), 1, 17),
    };
    let emitter = JsEmitter::new();
    assert_eq!(emitter.generate_statement(&statement), "let s = \"a\"b\\\nc\";");
    assert_eq!(
        emitter.generate(&Program { statements: vec![statement] }),
        "let s = \"a\"b\\\nc\";\n"
    );
}

#[test]
fn expressions_are_emitted_one_by_one() {
    let one = Expr::Number(Decimal::parse("1").unwrap());
    let name = Expr::Identifier("total".to_string());
    let text = Expr::String(String::new());
    assert_eq!(JsEmitter::generate_expr(&one), "1");
    assert_eq!(JsEmitter::generate_expr(&name), "total");
    assert_eq!(JsEmitter::generate_expr(&text), "\"\"");
    let product = Expr::Binary { left: Box::new(one), op: BinaryOp::Mul, right: Box::new(name) };
    let quotient =
        Expr::Binary { left: Box::new(text), op: BinaryOp::Div, right: Box::new(product) };
    assert_eq!(JsEmitter::generate_expr(&quotient), "(\"\" / (1 * total))");
}

#[test]
fn operators_are_written_as_in_the_source() {
    assert_eq!(BinaryOp::Add.to_str(), "+");
    assert_eq!(BinaryOp::Sub.to_str(), "-");
    assert_eq!(BinaryOp::Mul.to_str(), "*");
    assert_eq!(BinaryOp::Div.to_str(), "/");
}
