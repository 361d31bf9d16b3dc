use mini_ts::ast::{BinaryOp, Expr, LetStatement, Positioned, Program, Type};
use mini_ts::lexer::Lexer;
use mini_ts::parser::Parser;
use mini_ts::type_checker::{TypeChecker, TypeError};

fn checked_program(input: &str) -> Program {
    let mut lexer = Lexer::new(input);
    let tokens = lexer.collect_tokens().unwrap();
    let mut parser = Parser::new(tokens);
    parser.parse_program().unwrap()
}

fn type_check(program: &Program) -> Option<String> {
    let mut checker = TypeChecker::new();
    match checker.check_program(program) {
        Ok(()) => None,
        Err(e) => Some(e.message()),
    }
}

fn type_check_str(input: &str) -> Option<String> {
    let program = checked_program(input);
    type_check(&program)
}

fn type_error(input: &str) -> TypeError {
    let program = checked_program(input);
    TypeChecker::new().check_program(&program).unwrap_err()
}

#[test]
fn type_checker_tests_test_simple_number_assignment() {
    assert_eq!(type_check_str("let x: number = 42;"), None);
}

#[test]
fn type_checker_tests_test_simple_string_assignment() {
    assert_eq!(type_check_str("let s: string = \"hello\";"), None);
}

#[test]
fn test_number_arithmetic() {
    assert_eq!(type_check_str("let x: number = 10 + 20;"), None);
    assert_eq!(type_check_str("let x: number = 10 - 20;"), None);
    assert_eq!(type_check_str("let x: number = 10 * 20;"), None);
    assert_eq!(type_check_str("let x: number = 10 / 20;"), None);
}

#[test]
fn type_checker_tests_test_string_concatenation() {
    assert_eq!(type_check_str("let s: string = \"hello\" + \"world\";"), None);
}

#[test]
fn test_string_invalid_operation() {
    let result = type_check_str("let s: string = \"hello\" - \"world\";");
    assert!(result.is_some());
    assert_eq!(
        result.unwrap(),
        "Type error: '-' can only be used for number operations, not with strings"
    );
}

#[test]
fn test_type_mismatch_number_string() {
    let result = type_check_str("let x: number = \"hello\";");
    assert!(result.is_some());
    assert_eq!(result.unwrap(), "1:5 - Type mismatch for 'x': expected Number");
}

#[test]
fn test_type_mismatch_string_number() {
    let result = type_check_str("let s: string = 42;");
    assert!(result.is_some());
    assert_eq!(result.unwrap(), "1:5 - Type mismatch for 's': expected String");
}

#[test]
fn test_type_mismatch_in_binary_expr() {
    let result = type_check_str("let x: number = 42 + \"hello\";");
    assert!(result.is_some());
    assert_eq!(
        result.unwrap(),
        "Type error: Cannot apply '+' operation between different types (Number and String)"
    );
}

#[test]
fn type_checker_tests_test_variable_reference() {
    assert_eq!(type_check_str("let x: number = 42; let y: number = x;"), None);
}

#[test]
fn test_variable_reference_wrong_type() {
    let result = type_check_str("let x: string = \"hello\"; let y: number = x;");
    assert!(result.is_some());
    assert_eq!(result.unwrap(), "1:30 - Type mismatch for 'y': expected Number");
}

#[test]
fn type_checker_tests_test_complex_expression() {
    assert_eq!(
        type_check_str("let x: number = 5; let y: number = 10; let z: number = (x + y) * (y - x);"),
        None
    );
}

#[test]
fn test_string_variable_reference() {
    assert_eq!(
        type_check_str(
            "let s1: string = \"hello\"; let s2: string = \"world\"; let s3: string = s1 + s2;"
        ),
        None
    );
}

#[test]
fn test_undefined_variable() {
    let result = type_check_str("let x: number = undefined;");
    assert!(result.is_some());
    assert_eq!(result.unwrap(), "1:5 - Type mismatch for 'x': expected Number");
}

#[test]
fn test_mixed_types_in_expression() {
    let result =
        type_check_str("let x: number = 5; let s: string = \"hello\"; let result: number = x + s;");
    assert!(result.is_some());
    assert_eq!(
        result.unwrap(),
        "Type error: Cannot apply '+' operation between different types (Number and String)"
    );
}

#[test]
fn the_empty_program_is_well_typed() {
    assert_eq!(type_check_str(""), None);
}

#[test]
fn a_mismatch_cites_the_name_its_place_and_the_declared_type() {
    assert_eq!(
        type_error("let x: number = \"hello\";"),
        TypeError::Mismatch { name: "x".to_string(), line: 1, column: 5, declared: Type::Number }
    );
    assert_eq!(
        type_error("let a: number = 1;\n\n   let  name: string = a;"),
        TypeError::Mismatch { name: "name".to_string(), line: 3, column: 9, declared: Type::String }
    );
}

#[test]
fn strings_take_no_operator_but_plus() {
    assert_eq!(
        type_error("let s: string = \"a\" - \"b\";"),
        TypeError::InvalidStringOperator { op: BinaryOp::Sub }
    );
    assert_eq!(
        type_error("let s: string = \"a\" * \"b\";"),
        TypeError::InvalidStringOperator { op: BinaryOp::Mul }
    );
    assert_eq!(
        type_error("let s: string = \"a\" / \"b\";"),
        TypeError::InvalidStringOperator { op: BinaryOp::Div }
    );
    assert_eq!(type_check_str("let s: string = \"a\" + \"b\";"), None);
    assert_eq!(
        type_check_str("let s: string = \"a\" * \"b\";").unwrap(),
        "Type error: '*' can only be used for number operations, not with strings"
    );
}

#[test]
fn operands_of_different_types_do_not_combine() {
    assert_eq!(
        type_error("let x: string = \"a\" / 2;"),
        TypeError::OperandMismatch { op: BinaryOp::Div, left: Type::String, right: Type::Number }
    );
    assert_eq!(
        type_error("let x: number = 1 - nobody;"),
        TypeError::OperandMismatch { op: BinaryOp::Sub, left: Type::Number, right: Type::Unknown }
    );
    assert_eq!(
        type_check_str("let x: number = nobody * 2;").unwrap(),
        "Type error: Cannot apply '*' operation between different types (Unknown and Number)"
    );
}

#[test]
fn two_unknown_operands_give_an_unknown_type() {
    assert_eq!(
        type_error("let x: number = a + b;"),
        TypeError::Mismatch { name: "x".to_string(), line: 1, column: 5, declared: Type::Number }
    );
    assert_eq!(
        type_check_str("let x: string = a - b;").unwrap(),
        "1:5 - Type mismatch for 'x': expected String"
    );
}

#[test]
fn the_left_operand_fails_first() {
    assert_eq!(
        type_error("let x: number = (\"a\" - \"b\") + (1 + \"c\");"),
        TypeError::InvalidStringOperator { op: BinaryOp::Sub }
    );
    assert_eq!(
        type_error("let x: number = (1 + \"c\") + (\"a\" - \"b\");"),
        TypeError::OperandMismatch { op: BinaryOp::Add, left: Type::Number, right: Type::String }
    );
}

#[test]
fn the_first_failing_statement_is_reported() {
    assert_eq!(
        type_error("let a: number = 1; let b: string = 2; let c: number = \"x\";"),
        TypeError::Mismatch { name: "b".to_string(), line: 1, column: 24, declared: Type::String }
    );
}

#[test]
fn a_name_is_not_bound_in_its_own_statement_nor_before_it() {
    assert_eq!(
        type_check_str("let x: number = x;").unwrap(),
        "1:5 - Type mismatch for 'x': expected Number"
    );
    assert_eq!(
        type_check_str("let y: number = x; let x: number = 1;").unwrap(),
        "1:5 - Type mismatch for 'y': expected Number"
    );
}

#[test]
fn a_later_declaration_replaces_an_earlier_one() {
    assert_eq!(
        type_check_str("let x: number = 1; let x: string = \"s\"; let y: string = x + \"t\";"),
        None
    );
    assert_eq!(
        type_error("let x: number = 1; let x: string = \"s\"; let y: number = x;"),
        TypeError::Mismatch { name: "y".to_string(), line: 1, column: 45, declared: Type::Number }
    );
}

#[test]
fn each_check_starts_with_nothing_bound() {
    let first = checked_program("let x: number = 1;");
    let second = checked_program("let y: number = x;");
    let mut checker = TypeChecker::new();
    assert_eq!(checker.check_program(&first), Ok(()));
    assert_eq!(
        checker.check_program(&second),
        Err(TypeError::Mismatch {
            name: "y".to_string(),
            line: 1,
            column: 5,
            declared: Type::Number
        })
    );
    assert_eq!(checker.check_program(&first), Ok(()));
}

#[test]
fn an_unrecognised_annotation_is_an_unknown_type() {
    let statement = |value: Expr| LetStatement {
        name: Positioned::new("x".to_string(), 2, 3),
        declared_type: Positioned::new("boolean".to_string(), 2, 6),
        expression: Positioned::new(value, 2, 16),
    };
    let unknown = Program { statements: vec![statement(Expr::Identifier("nobody".to_string()))] };
    assert_eq!(type_check(&unknown), None);
    let number = Program { statements: vec![statement(Expr::String("s".to_string()))] };
    assert_eq!(
        TypeChecker::new().check_program(&number),
        Err(TypeError::Mismatch {
            name: "x".to_string(),
            line: 2,
            column: 3,
            declared: Type::Unknown
        })
    );
    assert_eq!(type_check(&number).unwrap(), "2:3 - Type mismatch for 'x': expected Unknown");
}

#[test]
fn annotations_name_types() {
    assert_eq!(Type::from_annotation("number"), Type::Number);
    assert_eq!(Type::from_annotation("string"), Type::String);
    assert_eq!(Type::from_annotation("Number"), Type::Unknown);
    assert_eq!(Type::from_annotation(""), Type::Unknown);
    assert_eq!(Type::Number.name(), "Number");
    assert_eq!(Type::String.name(), "String");
    assert_eq!(Type::Unknown.name(), "Unknown");
}

#[test]
fn positions_are_written_in_decimal() {
    let error = TypeError::Mismatch {
        name: "v".to_string(),
        line: 120,
        column: 4096,
        declared: Type::String,
    };
    assert_eq!(error.message(), "120:4096 - Type mismatch for 'v': expected String");
    let zero =
        TypeError::Mismatch { name: String::new(), line: 0, column: 10, declared: Type::Number };
    assert_eq!(zero.message(), "0:10 - Type mismatch for '': expected Number");
    assert_eq!(error.clone(), error);
}
